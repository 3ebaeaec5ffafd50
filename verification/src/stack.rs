//! A last-in-first-out stack over an owned chain of nodes.

use vstd::prelude::*;

use crate::node::Node;
use crate::node::chain_seq;

verus! {

/// A stack: the chain hangs from `top`, most recently pushed datum first.
#[derive(Debug, Clone, PartialEq)]
pub struct Stack<T: PartialEq> {
    pub len: usize,
    pub top: Option<Box<Node<T>>>,
}

impl<T: PartialEq> View for Stack<T> {
    type V = Seq<T>;

    open spec fn view(&self) -> Seq<T> {
        chain_seq(self.top)
    }
}

impl<T: PartialEq> Stack<T> {
    /// The recorded length agrees with the chain.
    pub open spec fn wf(&self) -> bool {
        self.len == self@.len()
    }

    /// The empty stack.
    pub fn new() -> (r: Self)
        ensures
            r.wf(),
            r@ == Seq::<T>::empty(),
    {
        Stack { len: 0, top: None }
    }

    /// Puts `data` on top of the stack.
    pub fn push(&mut self, data: T)
        requires
            old(self).wf(),
            old(self)@.len() < usize::MAX,
        ensures
            final(self).wf(),
            final(self)@ == seq![data] + old(self)@,
    {
        self.len = self.len + 1;
        self.top = Some(Box::new(Node { data, next: self.top.take() }));
        proof {
            assert(self@ =~= seq![data] + old(self)@);
        }
    }

    /// Takes the most recently pushed datum off the stack, if any.
    pub fn pop(&mut self) -> (r: Option<T>)
        requires
            old(self).wf(),
        ensures
            final(self).wf(),
            old(self)@.len() == 0 ==> r is None && *final(self) == *old(self),
            old(self)@.len() > 0 ==> r == Some(old(self)@[0]) && final(self)@ == old(self)@.drop_first(),
    {
        match self.top.take() {
            Some(mut top) => {
                self.top = top.next.take();
                self.len = self.len - 1;
                proof {
                    assert(self@ =~= old(self)@.drop_first());
                }
                Some(top.data)
            }
            None => None,
        }
    }

    /// The most recently pushed datum, if any, left in place.
    pub fn peek(&self) -> (r: Option<&T>)
        ensures
            self@.len() == 0 ==> r is None,
            self@.len() > 0 ==> r == Some(&self@[0]),
    {
        match &self.top {
            Some(top) => Some(&top.data),
            None => None,
        }
    }

    /// Mutable access to the most recently pushed datum, if any.
    pub fn peek_mut(&mut self) -> (r: Option<&mut T>)
        requires
            old(self).wf(),
        ensures
            old(self)@.len() == 0 ==> r is None && *final(self) == *old(self),
            old(self)@.len() > 0 ==> (r matches Some(p) && *p == old(self)@[0]
                && final(self)@ == old(self)@.update(0, *final(p))
                && final(self).wf()),
    {
        match &mut self.top {
            Some(top) => Some(&mut top.data),
            None => None,
        }
    }
}

} // verus!
