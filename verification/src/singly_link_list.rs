//! A singly linked list over an owned chain of nodes, with index access.

use vstd::prelude::*;

use crate::node::Node;
use crate::node::chain_seq;

verus! {

use vstd::std_specs::cmp::PartialEqSpec;

/// A singly linked list; the view runs head first. The flag selects the
/// recursive algorithms, which here are the only ones, so it changes
/// nothing observable.
#[derive(Debug, Clone)]
pub struct SinglyLinkList<T: PartialEq> {
    pub len: usize,
    pub head: Option<Box<Node<T>>>,
    pub is_recursive: bool,
}

/// Puts `data` at position `index` of the chain, counting from `node`.
/// Fails, changing nothing, when the chain is shorter than `index`.
fn insert_node<T: PartialEq>(node: &mut Option<Box<Node<T>>>, index: usize, data: T) -> (r: bool)
    ensures
        index <= chain_seq(*old(node)).len() ==> r
            && chain_seq(*final(node)) == chain_seq(*old(node)).insert(index as int, data),
        index > chain_seq(*old(node)).len() ==> !r && *final(node) == *old(node),
    decreases index,
{
    if index == 0 {
        let next = node.take();
        *node = Some(Box::new(Node { data, next }));
        proof {
            assert(chain_seq(*node) =~= chain_seq(*old(node)).insert(0, data));
        }
        true
    } else {
        match node {
            Some(n) => {
                let r = insert_node(&mut n.next, index - 1, data);
                proof {
                    if index <= chain_seq(*old(node)).len() {
                        assert(chain_seq(*node) =~= chain_seq(*old(node)).insert(
                            index as int,
                            data,
                        ));
                    }
                }
                r
            }
            None => false,
        }
    }
}

/// Unlinks and returns the datum at position `index` of the chain,
/// if the chain is that long.
fn remove_node<T: PartialEq>(node: &mut Option<Box<Node<T>>>, index: usize) -> (r: Option<T>)
    ensures
        index < chain_seq(*old(node)).len() ==> r == Some(chain_seq(*old(node))[index as int])
            && chain_seq(*final(node)) == chain_seq(*old(node)).remove(index as int),
        index >= chain_seq(*old(node)).len() ==> r is None && *final(node) == *old(node),
    decreases index,
{
    if index == 0 {
        match node.take() {
            Some(mut n) => {
                *node = n.next.take();
                proof {
                    assert(chain_seq(*node) =~= chain_seq(*old(node)).remove(0));
                }
                Some(n.data)
            }
            None => None,
        }
    } else {
        match node {
            Some(n) => {
                let r = remove_node(&mut n.next, index - 1);
                proof {
                    if index < chain_seq(*old(node)).len() {
                        assert(chain_seq(*node) =~= chain_seq(*old(node)).remove(index as int));
                    }
                }
                r
            }
            None => None,
        }
    }
}

/// The position, counted from `node`, of the first datum equal to
/// `target`.
fn contains_node<T: PartialEq>(node: &Option<Box<Node<T>>>, target: &T) -> (r: Option<usize>)
    requires
        chain_seq(*node).len() <= usize::MAX,
    ensures
        r matches Some(i) ==> i < chain_seq(*node).len(),
        T::obeys_eq_spec() ==> match r {
            Some(i) => i < chain_seq(*node).len() && chain_seq(*node)[i as int].eq_spec(target)
                && forall|j: int| 0 <= j < i ==> !(#[trigger] chain_seq(*node)[j]).eq_spec(target),
            None => forall|j: int| 0 <= j < chain_seq(*node).len()
                ==> !(#[trigger] chain_seq(*node)[j]).eq_spec(target),
        },
    decreases *node,
{
    match node {
        Some(n) => {
            proof {
                assert(chain_seq(*node) =~= seq![n.data] + chain_seq(n.next));
            }
            if n.data == *target {
                Some(0)
            } else {
                match contains_node(&n.next, target) {
                    Some(i) => {
                        proof {
                            if T::obeys_eq_spec() {
                                assert(chain_seq(*node)[i + 1] == chain_seq(n.next)[i as int]);
                                assert forall|j: int| 0 <= j < i + 1 implies !(#[trigger] chain_seq(
                                    *node,
                                )[j]).eq_spec(target) by {
                                    if j > 0 {
                                        assert(chain_seq(*node)[j] == chain_seq(n.next)[j - 1]);
                                    }
                                }
                            }
                        }
                        Some(i + 1)
                    }
                    None => {
                        proof {
                            if T::obeys_eq_spec() {
                                assert forall|j: int| 0 <= j < chain_seq(*node).len() implies !(
                                #[trigger] chain_seq(*node)[j]).eq_spec(target) by {
                                    if j > 0 {
                                        assert(chain_seq(*node)[j] == chain_seq(n.next)[j - 1]);
                                    }
                                }
                            }
                        }
                        None
                    }
                }
            }
        }
        None => None,
    }
}


/// Whether two chains hold pairwise equal data.
fn chain_eq<T: PartialEq>(a: &Option<Box<Node<T>>>, b: &Option<Box<Node<T>>>) -> (r: bool)
    ensures
        T::obeys_eq_spec() ==> r == chain_eq_spec(*a, *b),
    decreases *a,
{
    match (a, b) {
        (Some(x), Some(y)) => x.data == y.data && chain_eq(&x.next, &y.next),
        (None, None) => true,
        _ => false,
    }
}

/// Pairwise data equality of two chains, under the elements' own notion
/// of equality.
pub open spec fn chain_eq_spec<T: PartialEq>(
    a: Option<Box<Node<T>>>,
    b: Option<Box<Node<T>>>,
) -> bool
    decreases a,
{
    match (a, b) {
        (Some(x), Some(y)) => x.data.eq_spec(&y.data) && chain_eq_spec(x.next, y.next),
        (None, None) => true,
        _ => false,
    }
}

impl<T: PartialEq> PartialEq for SinglyLinkList<T> {
    /// Two lists are equal when they have the same length and pairwise
    /// equal data; the algorithm flag does not take part.
    fn eq(&self, other: &Self) -> (r: bool) {
        self.len == other.len && chain_eq(&self.head, &other.head)
    }
}

impl<T: PartialEq> vstd::std_specs::cmp::PartialEqSpecImpl for SinglyLinkList<T> {
    open spec fn obeys_eq_spec() -> bool {
        T::obeys_eq_spec()
    }

    open spec fn eq_spec(&self, other: &SinglyLinkList<T>) -> bool {
        self.len == other.len && chain_eq_spec(self.head, other.head)
    }
}

impl<T: PartialEq> View for SinglyLinkList<T> {
    type V = Seq<T>;

    open spec fn view(&self) -> Seq<T> {
        chain_seq(self.head)
    }
}

impl<T: PartialEq> SinglyLinkList<T> {
    /// The recorded length agrees with the chain.
    pub open spec fn wf(&self) -> bool {
        self.len == self@.len()
    }

    /// The empty list.
    pub fn new() -> (r: Self)
        ensures
            r.wf(),
            r@ == Seq::<T>::empty(),
            r.is_recursive == false,
    {
        SinglyLinkList { len: 0, head: None, is_recursive: false }
    }

    /// Selects the recursive algorithms.
    pub fn enable_recursive_algorithm(&mut self)
        ensures
            final(self).is_recursive,
            final(self).len == old(self).len,
            final(self).head == old(self).head,
    {
        self.is_recursive = true;
    }

    /// Selects the iterative algorithms.
    pub fn disable_recursive_algorithm(&mut self)
        ensures
            !final(self).is_recursive,
            final(self).len == old(self).len,
            final(self).head == old(self).head,
    {
        self.is_recursive = false;
    }

    /// True when the list holds nothing.
    pub fn is_empty(&self) -> (r: bool)
        requires
            self.wf(),
        ensures
            r == (self@.len() == 0),
    {
        self.len == 0
    }

    /// The number of held elements.
    pub fn len(&self) -> (r: usize)
        requires
            self.wf(),
        ensures
            r == self@.len(),
    {
        self.len
    }

    /// Puts `data` at position `index`, shifting the rest back. Fails,
    /// changing nothing, when the index is past the end.
    pub fn insert(&mut self, index: usize, data: T) -> (r: bool)
        requires
            old(self).wf(),
            old(self)@.len() < usize::MAX,
        ensures
            final(self).wf(),
            final(self).is_recursive == old(self).is_recursive,
            index <= old(self)@.len() ==> r
                && final(self)@ == old(self)@.insert(index as int, data),
            index > old(self)@.len() ==> !r && *final(self) == *old(self),
    {
        if insert_node(&mut self.head, index, data) {
            self.len = self.len + 1;
            true
        } else {
            false
        }
    }

    /// Removes and returns the element at `index`, if it exists.
    pub fn remove(&mut self, index: usize) -> (r: Option<T>)
        requires
            old(self).wf(),
        ensures
            final(self).wf(),
            final(self).is_recursive == old(self).is_recursive,
            index < old(self)@.len() ==> r == Some(old(self)@[index as int])
                && final(self)@ == old(self)@.remove(index as int),
            index >= old(self)@.len() ==> r is None && *final(self) == *old(self),
    {
        match remove_node(&mut self.head, index) {
            Some(data) => {
                self.len = self.len - 1;
                Some(data)
            }
            None => None,
        }
    }

    /// The position of the first element equal to `target`, if any.
    pub fn contains(&self, target: &T) -> (r: Option<usize>)
        requires
            self.wf(),
        ensures
            T::obeys_eq_spec() ==> match r {
                Some(i) => i < self@.len() && self@[i as int].eq_spec(target)
                    && forall|j: int| 0 <= j < i ==> !(#[trigger] self@[j]).eq_spec(target),
                None => forall|j: int| 0 <= j < self@.len()
                    ==> !(#[trigger] self@[j]).eq_spec(target),
            },
    {
        contains_node(&self.head, target)
    }

    /// Drains the list from the front until nothing is left.
    pub fn clear(&mut self)
        requires
            old(self).wf(),
        ensures
            final(self).wf(),
            final(self)@ == Seq::<T>::empty(),
    {
        loop
            invariant_except_break
                self.wf(),
            ensures
                self.wf() && self@.len() == 0,
            decreases self@.len(),
        {
            match self.remove(0) {
                Some(_) => (),
                None => {
                    break ;
                }
            }
        }
        proof {
            assert(self@ =~= Seq::<T>::empty());
        }
    }
}

} // verus!
