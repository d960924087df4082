//! A double-ended list: constant-time insertion and removal at both ends,
//! plus splitting, joining, reversing and positional access.
use std::collections::VecDeque;
use vstd::prelude::*;

verus! {

/// Relies on `VecDeque::get_mut`: a mutable reference to the element at
/// `index`, or `None` when `index` is not below the length; writing through
/// it changes that element and nothing else.
#[verifier::external_body]
fn deque_get_mut<T>(items: &mut VecDeque<T>, index: usize) -> (r: Option<&mut T>)
    ensures
        index >= old(items)@.len() ==> r is None && final(items)@ == old(items)@,
        index < old(items)@.len() ==> r is Some && *r.unwrap() == old(items)@[index as int]
            && final(items)@ == old(items)@.update(index as int, *final(r.unwrap())),
{
    items.get_mut(index)
}

/// Relies on `VecDeque::make_contiguous`: the elements, front to back, as
/// one slice; writing through it writes the deque's elements.
#[verifier::external_body]
fn deque_slice<T>(items: &mut VecDeque<T>) -> (r: &mut [T])
    ensures
        r@ == old(items)@,
        final(items)@ == final(r)@,
{
    items.make_contiguous()
}

/// Relies on `<[T]>::split_first_mut`: the first element and the rest of
/// a nonempty slice, both still borrowed from it.
#[verifier::external_body]
fn slice_split_first<'a, T>(s: &'a mut [T]) -> (r: Option<(&'a mut T, &'a mut [T])>)
    ensures
        old(s)@.len() == 0 ==> r is None,
        old(s)@.len() > 0 ==> r is Some && *r.unwrap().0 == old(s)@[0] && r.unwrap().1@ == old(s)@.drop_first()
            && final(s)@ == seq![*final(r.unwrap().0)] + final(r.unwrap().1)@,
{
    s.split_first_mut()
}

/// A double-ended list of elements.
pub struct LinkedList<T> {
    items: VecDeque<T>,
}

impl<T> View for LinkedList<T> {
    type V = Seq<T>;

    /// The elements from front to back.
    closed spec fn view(&self) -> Seq<T> {
        self.items@
    }
}

impl<T> Default for LinkedList<T> {
    fn default() -> (r: Self)
        ensures
            r@ == Seq::<T>::empty(),
    {
        Self::new()
    }
}

impl<T> LinkedList<T> {
    /// An empty list.
    pub fn new() -> (r: Self)
        ensures
            r@ == Seq::<T>::empty(),
    {
        LinkedList { items: VecDeque::new() }
    }

    /// Inserts `t` at the front.
    pub fn push_front(&mut self, t: T)
        ensures
            final(self)@ == seq![t] + old(self)@,
    {
        self.items.push_front(t);
        proof {
            assert(self@ =~= seq![t] + old(self)@);
        }
    }

    /// Inserts `t` at the back.
    pub fn push_back(&mut self, t: T)
        ensures
            final(self)@ == old(self)@.push(t),
    {
        self.items.push_back(t);
    }

    /// Removes and returns the front element, or `None` when empty.
    pub fn pop_front(&mut self) -> (r: Option<T>)
        ensures
            old(self)@.len() == 0 ==> r is None && final(self)@ == old(self)@,
            old(self)@.len() > 0 ==> r == Some(old(self)@[0]) && final(self)@ == old(self)@.drop_first(),
    {
        self.items.pop_front()
    }

    /// Removes and returns the back element, or `None` when empty.
    pub fn pop_back(&mut self) -> (r: Option<T>)
        ensures
            old(self)@.len() == 0 ==> r is None && final(self)@ == old(self)@,
            old(self)@.len() > 0 ==> r == Some(old(self)@.last()) && final(self)@ == old(self)@.drop_last(),
    {
        self.items.pop_back()
    }

    /// The front element, or `None` when empty.
    pub fn front(&self) -> (r: Option<&T>)
        ensures
            self@.len() == 0 ==> r is None,
            self@.len() > 0 ==> r == Some(&self@[0]),
    {
        self.get(0)
    }

    /// The back element, or `None` when empty.
    pub fn back(&self) -> (r: Option<&T>)
        ensures
            self@.len() == 0 ==> r is None,
            self@.len() > 0 ==> r == Some(&self@.last()),
    {
        let n = self.items.len();
        if n == 0 {
            None
        } else {
            Some(&self.items[n - 1])
        }
    }

    /// A cursor over the elements from front to back.
    pub fn iter(&self) -> (r: Iter<'_, T>)
        ensures
            r@ == self@,
            r.wf(),
    {
        let r = Iter { items: &self.items, pos: 0, end: self.items.len() };
        proof {
            assert(r@ =~= self@);
        }
        r
    }

    /// A cursor that hands out mutable references to the elements from
    /// front to back; what is written through them is what the list holds
    /// afterwards.
    pub fn iter_mut(&mut self) -> (r: IterMut<'_, T>)
        ensures
            r.rest is Some,
            r@ == old(self)@,
            final(self)@ == final(r.rest.unwrap())@,
    {
        IterMut { rest: Some(deque_slice(&mut self.items)) }
    }

    /// Reverses the order of the elements.
    pub fn reverse(&mut self)
        ensures
            final(self)@ == old(self)@.reverse(),
    {
        let mut rev: VecDeque<T> = VecDeque::new();
        while self.items.len() > 0
            invariant
                self.items@.reverse() + rev@ == old(self)@.reverse(),
            decreases self.items@.len(),
        {
            let ghost before = self.items@;
            match self.items.pop_front() {
                Some(t) => {
                    rev.push_front(t);
                    proof {
                        assert(before.reverse() =~= before.drop_first().reverse().push(t));
                        assert(self.items@.reverse() + rev@ =~= old(self)@.reverse());
                    }
                },
                None => {},
            }
        }
        proof {
            assert(self.items@.reverse() =~= Seq::<T>::empty());
            assert(self.items@.reverse() + rev@ =~= rev@);
        }
        self.items = rev;
    }

    /// Moves every element of `other` to the back of this list, leaving
    /// `other` empty.
    pub fn append(&mut self, other: &mut Self)
        ensures
            final(self)@ == old(self)@ + old(other)@,
            final(other)@ == Seq::<T>::empty(),
    {
        self.items.append(&mut other.items);
    }

    /// Splits the list at position `at`: this list keeps the first `at`
    /// elements and the rest are returned. `at` must not exceed the length.
    pub fn split_off(&mut self, at: usize) -> (r: LinkedList<T>)
        requires
            at <= old(self)@.len(),
        ensures
            final(self)@ == old(self)@.subrange(0, at as int),
            r@ == old(self)@.subrange(at as int, old(self)@.len() as int),
    {
        LinkedList { items: self.items.split_off(at) }
    }

    /// The elements from front to back, consuming the list.
    pub fn into_vec(self) -> (r: Vec<T>)
        ensures
            r@ == self@,
    {
        let mut items = self.items;
        let mut out: Vec<T> = Vec::new();
        while items.len() > 0
            invariant
                out@ + items@ == self@,
            decreases items@.len(),
        {
            let ghost before = items@;
            match items.pop_front() {
                Some(t) => {
                    out.push(t);
                    proof {
                        assert(out@ + items@ =~= self@);
                    }
                },
                None => {},
            }
        }
        proof {
            assert(out@ =~= self@);
        }
        out
    }

    /// A consuming cursor that hands out elements from either end.
    pub fn into_iter(self) -> (r: IntoIter<T>)
        ensures
            r@ == self@,
    {
        IntoIter { list: self }
    }

    /// Removes every element.
    pub fn clear(&mut self)
        ensures
            final(self)@ == Seq::<T>::empty(),
    {
        self.items.clear();
    }

    /// The element at position `index` from the front, or `None` when
    /// `index` is not below the length.
    pub fn get(&self, index: usize) -> (r: Option<&T>)
        ensures
            index >= self@.len() ==> r is None,
            index < self@.len() ==> r == Some(&self@[index as int]),
    {
        if index >= self.items.len() {
            None
        } else {
            Some(&self.items[index])
        }
    }

    /// A mutable reference to the element at position `index`, or `None`
    /// when `index` is not below the length.
    pub fn get_mut(&mut self, index: usize) -> (r: Option<&mut T>)
        ensures
            index >= old(self)@.len() ==> r is None && final(self)@ == old(self)@,
            index < old(self)@.len() ==> r is Some && *r.unwrap() == old(self)@[index as int]
                && final(self)@ == old(self)@.update(index as int, *final(r.unwrap())),
    {
        deque_get_mut(&mut self.items, index)
    }

    /// A mutable reference to the front element, or `None` when empty.
    pub fn front_mut(&mut self) -> (r: Option<&mut T>)
        ensures
            old(self)@.len() == 0 ==> r is None && final(self)@ == old(self)@,
            old(self)@.len() > 0 ==> r is Some && *r.unwrap() == old(self)@[0]
                && final(self)@ == old(self)@.update(0, *final(r.unwrap())),
    {
        deque_get_mut(&mut self.items, 0)
    }

    /// A mutable reference to the back element, or `None` when empty.
    pub fn back_mut(&mut self) -> (r: Option<&mut T>)
        ensures
            old(self)@.len() == 0 ==> r is None && final(self)@ == old(self)@,
            old(self)@.len() > 0 ==> r is Some && *r.unwrap() == old(self)@.last()
                && final(self)@ == old(self)@.update(old(self)@.len() - 1, *final(r.unwrap())),
    {
        let n = self.items.len();
        if n == 0 {
            return None;
        }
        deque_get_mut(&mut self.items, n - 1)
    }

    pub fn len(&self) -> (r: usize)
        ensures
            r == self@.len(),
    {
        self.items.len()
    }

    pub fn is_empty(&self) -> (r: bool)
        ensures
            r == (self@.len() == 0),
    {
        self.items.len() == 0
    }
}

impl<T: Copy> LinkedList<T> {
    /// A list of the elements of `values`, in order.
    pub fn from_slice(values: &[T]) -> (r: Self)
        ensures
            r@ == values@,
    {
        let mut list = LinkedList::new();
        let mut i: usize = 0;
        while i < values.len()
            invariant
                i <= values@.len(),
                list@ == values@.subrange(0, i as int),
            decreases values@.len() - i,
        {
            list.push_back(values[i]);
            i = i + 1;
            proof {
                assert(list@ =~= values@.subrange(0, i as int));
            }
        }
        proof {
            assert(values@.subrange(0, values@.len() as int) =~= values@);
        }
        list
    }
}

impl LinkedList<i32> {
    /// Whether some element equals `t`.
    pub fn contains(&self, t: &i32) -> (r: bool)
        ensures
            r == self@.contains(*t),
    {
        let mut i: usize = 0;
        while i < self.items.len()
            invariant
                i <= self@.len(),
                forall|k: int| 0 <= k < i ==> self@[k] != *t,
            decreases self@.len() - i,
        {
            if self.items[i] == *t {
                return true;
            }
            i = i + 1;
        }
        false
    }
}

/// A cursor over a list's elements.
pub struct Iter<'a, T> {
    items: &'a VecDeque<T>,
    pos: usize,
    end: usize,
}

impl<'a, T> View for Iter<'a, T> {
    type V = Seq<T>;

    /// The elements not yet handed out.
    closed spec fn view(&self) -> Seq<T> {
        self.items@.subrange(self.pos as int, self.end as int)
    }
}

impl<'a, T> Iter<'a, T> {
    /// The cursor stays within its list.
    pub closed spec fn wf(&self) -> bool {
        self.pos <= self.end <= self.items@.len()
    }

    /// Hands out the next element from the front, or `None` at the end.
    pub fn next(&mut self) -> (r: Option<&'a T>)
        requires
            old(self).wf(),
        ensures
            final(self).wf(),
            old(self)@.len() == 0 ==> r is None && final(self)@ == old(self)@,
            old(self)@.len() > 0 ==> r == Some(&old(self)@[0]) && final(self)@ == old(self)@.drop_first(),
    {
        if self.pos >= self.end {
            return None;
        }
        let items: &'a VecDeque<T> = self.items;
        let item = &items[self.pos];
        self.pos = self.pos + 1;
        proof {
            assert(self@ =~= old(self)@.drop_first());
        }
        Some(item)
    }
}

/// A cursor handing out mutable references to a list's elements. `rest`
/// is the part of the list not yet handed out.
pub struct IterMut<'a, T> {
    pub rest: Option<&'a mut [T]>,
}

impl<'a, T> View for IterMut<'a, T> {
    type V = Seq<T>;

    /// The current values of the elements not yet handed out.
    open spec fn view(&self) -> Seq<T> {
        match self.rest {
            None => Seq::empty(),
            Some(s) => s@,
        }
    }
}

impl<'a, T> IterMut<'a, T> {
    /// Hands out the next element from the front, or `None` at the end.
    /// What is written through the reference and through the rest of the
    /// cursor makes up what was left before the call.
    pub fn next(&mut self) -> (r: Option<&'a mut T>)
        requires
            old(self).rest is Some,
        ensures
            final(self).rest is Some,
            old(self)@.len() == 0 ==> r is None && final(self)@ == old(self)@,
            old(self)@.len() > 0 ==> r is Some && *r.unwrap() == old(self)@[0] && final(self)@ == old(self)@.drop_first(),
            old(self)@.len() == 0 ==> final(old(self).rest.unwrap())@ == final(final(self).rest.unwrap())@,
            old(self)@.len() > 0 ==> final(old(self).rest.unwrap())@ == seq![*final(r.unwrap())]
                + final(final(self).rest.unwrap())@,
    {
        let rest = self.rest.take().unwrap();
        if rest.len() == 0 {
            self.rest = Some(rest);
            return None;
        }
        match slice_split_first(rest) {
            Some((first, tail)) => {
                self.rest = Some(tail);
                Some(first)
            },
            None => None,
        }
    }
}

/// A consuming cursor over a list's elements.
pub struct IntoIter<T> {
    list: LinkedList<T>,
}

impl<T> View for IntoIter<T> {
    type V = Seq<T>;

    /// The elements not yet handed out.
    closed spec fn view(&self) -> Seq<T> {
        self.list@
    }
}

impl<T> IntoIter<T> {
    /// Hands out the next element from the front, or `None` at the end.
    pub fn next(&mut self) -> (r: Option<T>)
        ensures
            old(self)@.len() == 0 ==> r is None && final(self)@ == old(self)@,
            old(self)@.len() > 0 ==> r == Some(old(self)@[0]) && final(self)@ == old(self)@.drop_first(),
    {
        self.list.pop_front()
    }

    /// Hands out the next element from the back, or `None` at the end.
    pub fn next_back(&mut self) -> (r: Option<T>)
        ensures
            old(self)@.len() == 0 ==> r is None && final(self)@ == old(self)@,
            old(self)@.len() > 0 ==> r == Some(old(self)@.last()) && final(self)@ == old(self)@.drop_last(),
    {
        self.list.pop_back()
    }
}

} // verus!
