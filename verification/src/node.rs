//! The shared node types that the list and tree containers build on.

use vstd::prelude::*;

verus! {

/// One cell of a singly linked chain: a datum and an owned successor link.
#[derive(Debug, PartialEq)]
pub struct Node<T: PartialEq> {
    pub data: T,
    pub next: Option<Box<Node<T>>>,
}

impl<T: PartialEq + Clone> Clone for Node<T> {
    /// A deep copy of the chain; nothing is claimed of the cloned data.
    fn clone(&self) -> Self
        decreases *self,
    {
        Node {
            data: self.data.clone(),
            next: match &self.next {
                Some(node) => Some(Box::new((**node).clone())),
                None => None,
            },
        }
    }
}

/// One cell of an unbalanced binary search tree.
#[derive(Debug, PartialEq)]
pub struct TreeNode<T: PartialOrd> {
    pub data: T,
    pub left: Option<Box<TreeNode<T>>>,
    pub right: Option<Box<TreeNode<T>>>,
}

/// One cell of a height-balanced binary search tree.
#[derive(Debug, PartialEq)]
pub struct BalancedTreeNode<T: PartialOrd> {
    pub data: T,
    pub height: usize,
    pub left: Option<Box<BalancedTreeNode<T>>>,
    pub right: Option<Box<BalancedTreeNode<T>>>,
}

/// One cell of a B-tree: a bounded run of keys and one more child than keys.
#[derive(Debug, PartialEq)]
pub struct BTreeNode<T: PartialOrd + Default> {
    pub keys: Vec<T>,
    pub key_count: usize,
    pub next: Vec<Option<Box<BTreeNode<T>>>>,
}

/// One vertex of a graph, identified by its index.
#[derive(Debug, Clone, PartialEq)]
pub struct GraphNode {
    pub id: usize,
}

/// One cell of a trie: how many stored words end here, and the labelled
/// children, kept as an association list in insertion order.
#[derive(Debug, PartialEq)]
pub struct TireNode<T: Eq> {
    pub count: usize,
    pub next: Vec<(T, Box<TireNode<T>>)>,
}

impl<T: Eq> TireNode<T> {
    /// A node with no ending words and no children.
    pub fn new() -> (r: Self)
        ensures
            r.count == 0,
            r.next@ == Seq::<(T, Box<TireNode<T>>)>::empty(),
    {
        TireNode { count: 0, next: Vec::new() }
    }
}

/// The sequence of data held by an optional chain of nodes, head first.
pub open spec fn chain_seq<T: PartialEq>(n: Option<Box<Node<T>>>) -> Seq<T>
    decreases n,
{
    match n {
        None => Seq::empty(),
        Some(node) => seq![node.data] + chain_seq(node.next),
    }
}

impl<T: PartialEq> View for Node<T> {
    type V = Seq<T>;

    open spec fn view(&self) -> Seq<T> {
        seq![self.data] + chain_seq(self.next)
    }
}

impl<T: PartialEq> Node<T> {
    /// A chain of one node holding `data`.
    pub fn from(data: T) -> (r: Self)
        ensures
            r@ == seq![data],
    {
        let r = Node { data, next: None };
        proof {
            assert(r@ =~= seq![data]);
        }
        r
    }

    /// Appends `data` at the far end of the chain.
    pub fn push(&mut self, data: T)
        ensures
            final(self)@ == old(self)@.push(data),
        decreases *old(self),
    {
        match self.next.take() {
            Some(mut node) => {
                (&mut *node).push(data);
                self.next = Some(node);
            }
            None => {
                self.next = Some(Box::new(Node { data, next: None }));
            }
        }
        proof {
            assert(self@ =~= old(self)@.push(data));
        }
    }
}



impl<T: Eq + Clone> Clone for TireNode<T> {
    /// A deep copy of the subtree; nothing is claimed of the cloned data.
    fn clone(&self) -> Self
        decreases *self,
    {
        let mut next: Vec<(T, Box<TireNode<T>>)> = Vec::new();
        let mut i: usize = 0;
        while i < self.next.len()
            decreases self.next@.len() - i,
        {
            let label = self.next[i].0.clone();
            let child = Box::new((*self.next[i].1).clone());
            next.push((label, child));
            i = i + 1;
        }
        TireNode { count: self.count, next }
    }
}

impl<T: PartialOrd> TreeNode<T> {
    /// A childless tree node holding `data`.
    pub fn from(data: T) -> (r: Self)
        ensures
            r.data == data,
            r.left is None,
            r.right is None,
    {
        TreeNode { data, left: None, right: None }
    }
}

impl<T: PartialOrd> BalancedTreeNode<T> {
    /// A childless balanced-tree node of height one holding `data`.
    pub fn from(data: T) -> (r: Self)
        ensures
            r.data == data,
            r.height == 1,
            r.left is None,
            r.right is None,
    {
        BalancedTreeNode { data, height: 1, left: None, right: None }
    }
}

impl<T: PartialOrd + Default + Clone> BTreeNode<T> {
    /// A node with no keys and no children.
    pub fn new() -> (r: Self)
        ensures
            r.keys@.len() == 0,
            r.key_count == 0,
            r.next@.len() == 0,
    {
        BTreeNode { keys: Vec::new(), key_count: 0, next: Vec::new() }
    }

    /// A node sized for `degree`, holding `data` as its only key.
    pub fn from(degree: usize, data: T) -> (r: Self)
        requires
            degree >= 1,
            degree < usize::MAX,
        ensures
            r.keys@.len() == degree,
            r.keys@[0] == data,
            r.key_count == 1,
            r.next@.len() == degree + 1,
            forall|i: int| 0 <= i < r.next@.len() ==> r.next@[i] is None,
    {
        let mut keys: Vec<T> = Vec::new();
        keys.push(data);
        while keys.len() < degree
            invariant
                1 <= keys@.len() <= degree,
                keys@[0] == data,
            decreases degree - keys@.len(),
        {
            keys.push(T::default());
        }
        let mut next: Vec<Option<Box<BTreeNode<T>>>> = Vec::new();
        while next.len() < degree + 1
            invariant
                degree < usize::MAX,
                next@.len() <= degree + 1,
                forall|i: int| 0 <= i < next@.len() ==> next@[i] is None,
            decreases degree + 1 - next@.len(),
        {
            next.push(None);
        }
        BTreeNode { keys, key_count: 1, next }
    }
}

} // verus!
