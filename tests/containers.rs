use base::heap::parent;
use base::{
    top_k_heap, LinkedList, MaxHeap, MinHeap, QueueWithArray, QueueWithList, SimpleList, StackWithList,
    StackWithVec,
};

#[test]
fn parent_index_should_work() {
    assert_eq!(parent(3), 1);
    assert_eq!(parent(4), 1);
    assert_eq!(parent(5), 2);
    assert_eq!(parent(6), 2);
}

#[test]
fn max_heap_basics_should_work() {
    let mut heep = MaxHeap::new();

    heep.push(1);
    assert_eq!(heep.peek(), Some(&1));
    heep.push(3);
    assert_eq!(heep.peek(), Some(&3));
    heep.push(5);
    assert_eq!(heep.peek(), Some(&5));
    heep.push(4);
    assert_eq!(heep.peek(), Some(&5));
    heep.push(2);
    assert_eq!(heep.peek(), Some(&5));
    heep.push(6);
    assert_eq!(heep.peek(), Some(&6));

    assert_eq!(heep.pop(), Some(6));
    assert_eq!(heep.peek(), Some(&5));
    assert_eq!(heep.pop(), Some(5));
    assert_eq!(heep.pop(), Some(4));
    assert_eq!(heep.pop(), Some(3));
    assert_eq!(heep.pop(), Some(2));
    assert_eq!(heep.pop(), Some(1));
    assert_eq!(heep.peek(), None);
    assert_eq!(heep.pop(), None);
}

#[test]
fn min_heap_basics_should_work() {
    let mut heep = MinHeap::new();

    heep.push(1);
    assert_eq!(heep.peek(), Some(&1));
    heep.push(3);
    assert_eq!(heep.peek(), Some(&1));
    heep.push(5);
    assert_eq!(heep.peek(), Some(&1));
    heep.push(4);
    assert_eq!(heep.peek(), Some(&1));
    heep.push(0);
    assert_eq!(heep.peek(), Some(&0));
    heep.push(2);
    assert_eq!(heep.peek(), Some(&0));

    assert_eq!(heep.pop(), Some(0));
    assert_eq!(heep.pop(), Some(1));
    assert_eq!(heep.pop(), Some(2));
    assert_eq!(heep.pop(), Some(3));
    assert_eq!(heep.pop(), Some(4));
    assert_eq!(heep.pop(), Some(5));
    assert_eq!(heep.pop(), None);
}

#[test]
fn heap_from_vec_should_work() {
    let mut min_heap = MinHeap::from_vec(vec![1, 2, 5, 3, 4, 2]);
    let mut max_heap = MaxHeap::from_vec(vec![1, 2, 5, 3, 4, 2]);

    assert_eq!(min_heap.peek(), Some(&1));
    assert_eq!(max_heap.peek(), Some(&5));

    assert_eq!(min_heap.pop(), Some(1));
    assert_eq!(max_heap.pop(), Some(5));

    assert_eq!(min_heap.peek(), Some(&2));
    assert_eq!(max_heap.peek(), Some(&4));
}

#[test]
fn heap_from_vec_drains_in_order() {
    let mut max_heap = MaxHeap::from_vec(vec![9, -3, 7, 7, 0, 12, 5, -8, 3]);
    let mut out = Vec::new();
    while let Some(v) = max_heap.pop() {
        out.push(v);
    }
    assert_eq!(out, vec![12, 9, 7, 7, 5, 3, 0, -3, -8]);
    let mut min_heap = MinHeap::from_vec(vec![]);
    assert_eq!(min_heap.pop(), None);
    assert!(min_heap.is_empty());
    let mut single = MaxHeap::from_vec(vec![4]);
    assert_eq!(single.len(), 1);
    assert_eq!(single.pop(), Some(4));
}

#[test]
fn top_k_heap_should_work() {
    let mut max_result = top_k_heap(&[2, 5, 3, 7, 3, 6, 1], 4);

    assert_eq!(max_result.pop().unwrap(), 3);
    assert_eq!(max_result.pop().unwrap(), 5);
    assert_eq!(max_result.pop().unwrap(), 6);
    assert_eq!(max_result.pop().unwrap(), 7);
    assert_eq!(max_result.pop(), None);
}

#[test]
fn top_k_edge_cases() {
    let mut none = top_k_heap(&[4, 1, 9], 0);
    assert_eq!(none.pop(), None);
    let mut all = top_k_heap(&[4, 1, 9], 10);
    assert_eq!(all.len(), 3);
    assert_eq!(all.pop(), Some(1));
    let mut ties = top_k_heap(&[5, 5, 5, 1], 2);
    assert_eq!(ties.pop(), Some(5));
    assert_eq!(ties.pop(), Some(5));
    assert_eq!(ties.pop(), None);
}

#[test]
fn queue_with_list_basics() {
    let mut queue = QueueWithList::new();

    assert!(queue.is_empty());
    assert_eq!(queue.pop(), None);

    queue.push(1);
    queue.push(2);
    queue.push(3);

    assert_eq!(queue.len(), 3);
    assert_eq!(queue.peek(), Some(&1));
    assert_eq!(queue.tail(), Some(&3));

    assert_eq!(queue.pop(), Some(1));
    assert_eq!(queue.tail(), Some(&3));
    assert_eq!(queue.len(), 2);
    assert_eq!(queue.to_vec(), vec![2, 3]);

    queue.pop();
    queue.pop();

    assert_eq!(queue.pop(), None);
}

#[test]
fn queue_with_vec_basics() {
    let mut queue = QueueWithArray::<i32, 5>::new();

    assert!(queue.is_empty());
    assert_eq!(queue.peek(), None);
    assert_eq!(queue.tail(), None);
    assert_eq!(queue.pop(), None);

    queue.push(1);
    queue.push(2);
    queue.push(3);

    assert!(!queue.is_empty());
    assert_eq!(queue.len(), 3);
    assert_eq!(queue.peek(), Some(&1));
    assert_eq!(queue.tail(), Some(&3));
    assert_eq!(queue.to_vec(), vec![1, 2, 3]);

    assert_eq!(queue.pop(), Some(1));
    assert_eq!(queue.len(), 2);
    assert_eq!(queue.peek(), Some(&2));
    assert_eq!(queue.tail(), Some(&3));
    assert_eq!(queue.to_vec(), vec![2, 3]);

    queue.push(4);
    queue.push(5);
    queue.push(6);

    assert_eq!(queue.len(), 5);
    assert_eq!(queue.peek(), Some(&2));
    assert_eq!(queue.tail(), Some(&6));
    assert_eq!(queue.to_vec(), vec![2, 3, 4, 5, 6]);

    assert_eq!(queue.pop(), Some(2));
    assert_eq!(queue.len(), 4);
    assert_eq!(queue.peek(), Some(&3));
    assert_eq!(queue.tail(), Some(&6));
    assert_eq!(queue.to_vec(), vec![3, 4, 5, 6]);

    assert_eq!(queue.pop(), Some(3));
    assert_eq!(queue.pop(), Some(4));
    assert_eq!(queue.pop(), Some(5));
    assert_eq!(queue.pop(), Some(6));
    assert_eq!(queue.pop(), None);
}

#[test]
fn queue_with_array_full_from_start() {
    let mut queue = QueueWithArray::<i32, 3>::new();
    assert_eq!(queue.capacity(), 3);
    queue.push(7);
    queue.push(8);
    queue.push(9);
    assert_eq!(queue.tail(), Some(&9));
    assert_eq!(queue.to_vec(), vec![7, 8, 9]);
    assert_eq!(queue.pop(), Some(7));
    queue.push(10);
    assert_eq!(queue.tail(), Some(&10));
    assert_eq!(queue.to_vec(), vec![8, 9, 10]);
}

#[test]
fn stack_with_list_basics() {
    let mut stack = StackWithList::new();

    assert!(stack.is_empty());
    assert_eq!(stack.pop(), None);

    stack.push(1);
    stack.push(2);
    stack.push(3);

    assert_eq!(stack.peek(), Some(&3));
    assert_eq!(stack.pop(), Some(3)); // pop 3
    assert_eq!(stack.len(), 2);
    assert_eq!(stack.to_vec(), vec![1, 2]);

    stack.pop(); // pop 2
    stack.pop(); // pop 1

    assert_eq!(stack.pop(), None);
}

#[test]
fn stack_with_vec_basics() {
    let mut stack = StackWithVec::new();

    assert!(stack.is_empty());
    assert_eq!(stack.pop(), None);

    stack.push(1);
    stack.push(2);
    stack.push(3);

    assert_eq!(stack.peek(), Some(&3));
    assert_eq!(stack.pop(), Some(3)); // pop 3
    assert_eq!(stack.len(), 2);
    assert_eq!(stack.to_vec(), vec![1, 2]);

    stack.pop(); // pop 2
    stack.pop(); // pop 1

    assert_eq!(stack.pop(), None);
}

#[test]
fn basics() {
    let list = SimpleList::new();
    assert_eq!(list.head(), None);

    let list = list.prepend(1).prepend(2).prepend(3);
    assert_eq!(list.head(), Some(&3));

    let list = list.tail();
    assert_eq!(list.head(), Some(&2));

    let list = list.tail();
    assert_eq!(list.head(), Some(&1));

    let list = list.tail();
    assert_eq!(list.head(), None);

    // Make sure empty tail works
    let list = list.tail();
    assert_eq!(list.head(), None);
}

#[test]
fn iter() {
    let list = SimpleList::new().prepend(1).prepend(2).prepend(3);

    let mut iter = list.iter();
    assert_eq!(iter.next(), Some(&3));
    assert_eq!(iter.next(), Some(&2));
    assert_eq!(iter.next(), Some(&1));
}

#[test]
fn simple_list_shares_tails() {
    let base = SimpleList::new().prepend(1);
    let a = base.prepend(2);
    let b = base.prepend(3);
    assert_eq!(a.tail().head(), Some(&1));
    assert_eq!(b.tail().head(), Some(&1));
    assert_eq!(base.head(), Some(&1));
    let mut it = a.iter();
    assert_eq!(it.next(), Some(&2));
    assert_eq!(it.next(), Some(&1));
    assert_eq!(it.next(), None);
}

#[test]
fn list_reverse_should_work() {
    let mut list = LinkedList::from_slice(&[2, 4, 6, 8, 0]);

    list.reverse();

    assert_eq!(list.into_vec(), LinkedList::from_slice(&[0, 8, 6, 4, 2]).into_vec());
}

#[test]
fn list_append_should_work() {
    let mut list = LinkedList::from_slice(&[1, 2, 3]);
    let mut list_src = LinkedList::from_slice(&[5, 6, 7]);

    list.append(&mut list_src);

    assert_eq!(list.into_vec(), vec![1, 2, 3, 5, 6, 7]);
    assert!(list_src.is_empty());
}

#[test]
fn list_split_off_should_work() {
    let mut list = LinkedList::from_slice(&[1, 3, 5, 7, 9]);
    let mut split = list.split_off(3);

    assert_eq!(list.front(), Some(&1));
    assert_eq!(list.back(), Some(&5));

    assert_eq!(split.pop_front(), Some(7));
    assert_eq!(split.pop_front(), Some(9));
    assert_eq!(split.pop_front(), None);
}

#[test]
fn list_basics_should_work() {
    let mut list = LinkedList::<i32>::new();

    assert!(list.is_empty());

    list.push_back(1);
    list.push_back(2);
    list.push_back(3);

    assert_eq!(list.len(), 3);

    assert_eq!(list.front(), Some(&1));
    if let Some(val) = list.front_mut() {
        *val += 5;
    }
    assert_eq!(list.front(), Some(&6));

    assert_eq!(list.back(), Some(&3));
    if let Some(val) = list.back_mut() {
        *val += 5;
    }
    assert_eq!(list.back(), Some(&8));

    assert_eq!(list.pop_front(), Some(6));
    assert_eq!(list.pop_back(), Some(8));

    list.push_front(4);
    list.push_front(8);
    list.push_front(10);

    assert_eq!(list.len(), 4);
    assert_eq!(list.front(), Some(&10));
    assert_eq!(list.back(), Some(&2));

    assert_eq!(list.get(0), list.front());
    assert_eq!(list.get(1), Some(&8));
    assert_eq!(list.get_mut(4), None);
    *(list.get_mut(2).unwrap()) = 5;
    assert_eq!(list.get(2), Some(&5));

    assert!(list.contains(&8));
    assert!(!list.contains(&9));

    list.clear();
    assert!(list.is_empty());
    assert_eq!(list.front(), None);
    assert_eq!(list.back(), None);
    assert_eq!(list.pop_front(), None);
    assert_eq!(list.pop_back(), None);

    list.push_front(5);
    assert_eq!(list.front(), Some(&5));
    assert_eq!(list.back(), Some(&5));
}

#[test]
fn list_iterators_walk_both_ways() {
    let mut list = LinkedList::new();
    list.push_back(1);
    list.push_back(3);
    list.push_back(5);
    list.push_back(7);

    let mut iter = list.iter();
    assert_eq!(iter.next(), Some(&1));
    assert_eq!(iter.next(), Some(&3));
    assert_eq!(iter.next(), Some(&5));
    assert_eq!(iter.next(), Some(&7));
    assert_eq!(iter.next(), None);

    assert_eq!(list.pop_front(), Some(1));
    let mut iter = list.into_iter();
    assert_eq!(iter.next(), Some(3));
    assert_eq!(iter.next_back(), Some(7));
    assert_eq!(iter.next(), Some(5));
    assert_eq!(iter.next(), None);
}

#[test]
fn list_iterator_should_work() {
    let mut list = LinkedList::new();

    list.push_back(1);
    list.push_back(3);
    list.push_back(5);
    list.push_back(7);

    let mut iter = list.iter();

    assert_eq!(iter.next(), Some(&1));
    assert_eq!(iter.next(), Some(&3));
    assert_eq!(iter.next(), Some(&5));
    assert_eq!(iter.next(), Some(&7));
    assert_eq!(iter.next(), None);

    let mut iter_mut = list.iter_mut();

    *(iter_mut.next().unwrap()) += 1;
    assert_eq!(list.pop_front(), Some(2));

    let mut iter = list.into_iter();

    assert_eq!(iter.next(), Some(3));
    assert_eq!(iter.next_back(), Some(7));
    assert_eq!(iter.next(), Some(5));
}
