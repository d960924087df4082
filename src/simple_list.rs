//! An immutable singly linked list whose tails are shared between lists.
use std::rc::Rc;
use vstd::prelude::*;

verus! {

struct Node<T> {
    elem: T,
    next: Option<Rc<Node<T>>>,
}

/// Relies on `Rc::clone`: the new handle points at the same node.
#[verifier::external_body]
fn share<T>(node: &Rc<Node<T>>) -> (r: Rc<Node<T>>)
    ensures
        r == *node,
{
    Rc::clone(node)
}

/// Another handle on the same chain of nodes.
fn share_link<T>(link: &Option<Rc<Node<T>>>) -> (r: Option<Rc<Node<T>>>)
    ensures
        r == *link,
{
    match link {
        None => None,
        Some(node) => Some(share(node)),
    }
}

/// The elements from a link onwards.
spec fn link_view<T>(link: Option<Rc<Node<T>>>) -> Seq<T>
    decreases link,
{
    match link {
        None => Seq::empty(),
        Some(node) => seq![node.elem] + link_view(node.next),
    }
}

/// An immutable list: prepending or dropping the head makes a new list that
/// shares the rest with the old one.
pub struct SimpleList<T> {
    head: Option<Rc<Node<T>>>,
}

impl<T> View for SimpleList<T> {
    type V = Seq<T>;

    /// The elements from head to end.
    closed spec fn view(&self) -> Seq<T> {
        link_view(self.head)
    }
}

impl<T> Default for SimpleList<T> {
    fn default() -> (r: Self)
        ensures
            r@ == Seq::<T>::empty(),
    {
        Self::new()
    }
}

impl<T> SimpleList<T> {
    /// An empty list.
    pub fn new() -> (r: Self)
        ensures
            r@ == Seq::<T>::empty(),
    {
        SimpleList { head: None }
    }

    /// A new list with `elem` in front of this list's elements.
    pub fn prepend(&self, elem: T) -> (r: SimpleList<T>)
        ensures
            r@ == seq![elem] + self@,
    {
        SimpleList { head: Some(Rc::new(Node { elem, next: share_link(&self.head) })) }
    }

    /// A new list of all elements but the first; empty for an empty list.
    pub fn tail(&self) -> (r: SimpleList<T>)
        ensures
            r@ == if self@.len() == 0 { Seq::<T>::empty() } else { self@.drop_first() },
    {
        match &self.head {
            None => SimpleList { head: None },
            Some(node) => {
                proof {
                    assert(self@.drop_first() =~= link_view(node.next));
                }
                SimpleList { head: share_link(&node.next) }
            },
        }
    }

    /// The first element, or `None` when empty.
    pub fn head(&self) -> (r: Option<&T>)
        ensures
            self@.len() == 0 ==> r is None,
            self@.len() > 0 ==> r == Some(&self@[0]),
    {
        match &self.head {
            None => None,
            Some(node) => Some(&node.elem),
        }
    }

    /// A cursor over the elements from the head.
    pub fn iter(&self) -> (r: Iter<'_, T>)
        ensures
            r@ == self@,
    {
        Iter { next: self.head.as_ref() }
    }
}

/// A cursor over a list's elements.
pub struct Iter<'a, T> {
    next: Option<&'a Rc<Node<T>>>,
}

impl<'a, T> View for Iter<'a, T> {
    type V = Seq<T>;

    /// The elements not yet handed out.
    closed spec fn view(&self) -> Seq<T> {
        match self.next {
            None => Seq::empty(),
            Some(node) => link_view(Some(*node)),
        }
    }
}

impl<'a, T> Iter<'a, T> {
    /// Hands out the next element, or `None` at the end.
    pub fn next(&mut self) -> (r: Option<&'a T>)
        ensures
            old(self)@.len() == 0 ==> r is None && final(self)@ == old(self)@,
            old(self)@.len() > 0 ==> r == Some(&old(self)@[0]) && final(self)@ == old(self)@.drop_first(),
    {
        match self.next {
            None => None,
            Some(node) => {
                proof {
                    assert(old(self)@.drop_first() =~= link_view(node.next));
                }
                self.next = node.next.as_ref();
                Some(&node.elem)
            },
        }
    }
}

} // verus!
