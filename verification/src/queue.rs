//! A first-in-first-out queue over the two-ended list.

use vstd::prelude::*;

use crate::doubly_link_list::DoublyLinkList;

verus! {

/// A queue: pushes join at the back, pops leave from the front.
pub struct Queue<T: PartialEq> {
    linklist: DoublyLinkList<T>,
}

impl<T: PartialEq> View for Queue<T> {
    type V = Seq<T>;

    closed spec fn view(&self) -> Seq<T> {
        self.linklist@
    }
}

impl<T: PartialEq> Queue<T> {
    /// The empty queue.
    pub fn new() -> (r: Self)
        ensures
            r@ == Seq::<T>::empty(),
    {
        Queue { linklist: DoublyLinkList::new() }
    }

    /// Joins `data` at the back of the queue.
    pub fn push(&mut self, data: T)
        requires
            old(self)@.len() < usize::MAX,
        ensures
            final(self)@ == old(self)@.push(data),
    {
        self.linklist.push_back(data);
    }

    /// Takes the oldest element, if any.
    pub fn pop(&mut self) -> (r: Option<T>)
        ensures
            old(self)@.len() == 0 ==> r is None && final(self)@ == old(self)@,
            old(self)@.len() > 0 ==> r == Some(old(self)@[0])
                && final(self)@ == old(self)@.drop_first(),
    {
        self.linklist.pop_front()
    }
}

} // verus!
