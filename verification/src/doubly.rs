//! A doubly linked list of values, pushed and popped at either end.

use std::collections::VecDeque;
use vstd::prelude::*;

verus! {

/// A chain of values with constant-time access at both ends.  A ring buffer
/// keeps the chain, so each operation has its natural contract over a `Seq`
/// without any pointer bookkeeping.
pub struct DoublyLinkedList<T> {
    items: VecDeque<T>,
}

impl<T> View for DoublyLinkedList<T> {
    type V = Seq<T>;

    /// The values in list order, front first.
    closed spec fn view(&self) -> Seq<T> {
        self.items@
    }
}

impl<T> DoublyLinkedList<T> {
    /// An empty list.
    pub fn new() -> (l: Self)
        ensures
            l@ == Seq::<T>::empty(),
    {
        DoublyLinkedList { items: VecDeque::new() }
    }

    /// Appends the item behind the current tail.
    pub fn push_back(&mut self, item: T)
        ensures
            final(self)@ == old(self)@.push(item),
    {
        self.items.push_back(item);
    }

    /// Puts the item before the current head.
    pub fn push_front(&mut self, item: T)
        ensures
            final(self)@ == seq![item] + old(self)@,
    {
        self.items.push_front(item);
    }

    /// Removes and returns the tail item; nothing when the list is empty.
    pub fn pop_back(&mut self) -> (r: Option<T>)
        ensures
            match r {
                Some(x) => old(self)@.len() > 0 && x == old(self)@.last() && final(self)@ == old(
                    self,
                )@.drop_last(),
                None => old(self)@.len() == 0 && final(self)@ == old(self)@,
            },
    {
        self.items.pop_back()
    }

    /// Removes and returns the head item; nothing when the list is empty.
    pub fn pop_front(&mut self) -> (r: Option<T>)
        ensures
            match r {
                Some(x) => old(self)@.len() > 0 && x == old(self)@[0] && final(self)@ == old(
                    self,
                )@.drop_first(),
                None => old(self)@.len() == 0 && final(self)@ == old(self)@,
            },
    {
        self.items.pop_front()
    }

    /// Hands out an iterator that drains the list from the back.
    pub fn iter_mut(&mut self) -> (it: NodeIterMut<'_, T>)
        ensures
            it.list@ == old(self)@,
    {
        NodeIterMut { list: self }
    }
}

/// Drains a list from the back, one value per call of `next`.
pub struct NodeIterMut<'a, T> {
    pub list: &'a mut DoublyLinkedList<T>,
}

impl<'a, T> NodeIterMut<'a, T> {
    /// The next value off the back of the list, until none are left.
    pub fn next(&mut self) -> (r: Option<T>)
        ensures
            match r {
                Some(x) => old(self).list@.len() > 0 && x == old(self).list@.last()
                    && final(self).list@ == old(self).list@.drop_last(),
                None => old(self).list@.len() == 0 && final(self).list@ == old(self).list@,
            },
    {
        self.list.pop_back()
    }
}

} // verus!
