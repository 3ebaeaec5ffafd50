//! A red-black tree over `i32` keys.
//!
//! The tree keeps four structural invariants through every `append` and
//! `delete`:
//! 1. the root, if present, is black;
//! 2. no red node has a red child;
//! 3. every path from the root to an absent child crosses the same number
//!    of black nodes;
//! 4. the in-order key sequence is non-decreasing (equal keys sit in the
//!    right subtree).
//!
//! Both operations descend once and repair the invariants on the unwind:
//! insertion carries a [`Direction`] code upward, deletion a
//! [`DeleteState`] that either promotes a child, rotates a sibling in, or
//! passes the missing-black deficiency one level up.

use vstd::prelude::*;

verus! {

use vstd::multiset::Multiset;
use vstd::pervasive::unreached;

broadcast use vstd::multiset::group_multiset_axioms;

/// The colour tag of a node.
#[derive(Debug, Clone, Copy, PartialEq, Eq, Structural)]
pub enum Color {
    Red,
    Black,
}

/// One cell of the tree: a key, a colour, and two owned child links.
#[derive(Debug, PartialEq)]
pub struct RedBlackNode {
    pub color: Color,
    pub key: i32,
    pub left: Option<Box<RedBlackNode>>,
    pub right: Option<Box<RedBlackNode>>,
}

/// The tree handle: the root link and the element count.
#[derive(Debug, PartialEq)]
pub struct RedBlackTree {
    pub size: usize,
    pub root: Option<Box<RedBlackNode>>,
}

/// The opposite colour.
pub open spec fn flip(c: Color) -> Color {
    match c {
        Color::Red => Color::Black,
        Color::Black => Color::Red,
    }
}

/// The same subtree with the colour of its root flipped.
pub open spec fn flip_top(n: Option<Box<RedBlackNode>>) -> Option<Box<RedBlackNode>> {
    match n {
        None => None,
        Some(x) => Some(
            Box::new(RedBlackNode { color: flip(x.color), key: x.key, left: x.left, right: x.right }),
        ),
    }
}

/// The status an insertion frame reports to its parent: which side the
/// freshly rebalanced child came from, that this level recoloured and the
/// extra red may travel on, or that nothing more is needed.
#[derive(Debug, Clone, Copy, PartialEq)]
pub enum Direction {
    Left,
    Right,
    Changed,
    Resolved,
}

/// The colour of an optional node; an absent child counts as black.
pub open spec fn opt_color(n: Option<Box<RedBlackNode>>) -> Color {
    match n {
        None => Color::Black,
        Some(x) => x.color,
    }
}

/// The multiset of keys in an optional subtree.
pub open spec fn opt_ms(n: Option<Box<RedBlackNode>>) -> Multiset<i32>
    decreases n,
{
    match n {
        None => Multiset::empty(),
        Some(x) => x.ms(),
    }
}

/// The number of nodes in an optional subtree.
pub open spec fn opt_count(n: Option<Box<RedBlackNode>>) -> nat
    decreases n,
{
    match n {
        None => 0,
        Some(x) => x.count(),
    }
}

/// The black-height of an optional subtree: black nodes on the path from
/// its root to any absent child, counting the root itself when black.
pub open spec fn opt_bh(n: Option<Box<RedBlackNode>>) -> nat
    decreases n,
{
    match n {
        None => 0,
        Some(x) => x.bh(),
    }
}

/// Both subtrees of every node have equal black-height.
pub open spec fn opt_balanced(n: Option<Box<RedBlackNode>>) -> bool
    decreases n,
{
    match n {
        None => true,
        Some(x) => x.balanced(),
    }
}

/// No red node has a red child.
pub open spec fn opt_nrr(n: Option<Box<RedBlackNode>>) -> bool
    decreases n,
{
    match n {
        None => true,
        Some(x) => x.nrr(),
    }
}

/// Keys are ordered: no larger to the left, no smaller to the right.
pub open spec fn opt_ordered(n: Option<Box<RedBlackNode>>) -> bool
    decreases n,
{
    match n {
        None => true,
        Some(x) => x.ordered(),
    }
}

/// The in-order key sequence of an optional subtree.
pub open spec fn opt_inorder(n: Option<Box<RedBlackNode>>) -> Seq<i32>
    decreases n,
{
    match n {
        None => Seq::empty(),
        Some(x) => x.inorder(),
    }
}

/// Every key of `m` is at most `k`.
pub open spec fn all_at_most(m: Multiset<i32>, k: int) -> bool {
    forall|x: i32| #[trigger] m.count(x) > 0 ==> x <= k
}

/// Every key of `m` is at least `k`.
pub open spec fn all_at_least(m: Multiset<i32>, k: int) -> bool {
    forall|x: i32| #[trigger] m.count(x) > 0 ==> x >= k
}

/// No red node has a red child anywhere strictly below the root of `n`.
pub open spec fn sub_nrr(n: Option<Box<RedBlackNode>>) -> bool {
    match n {
        None => true,
        Some(x) => opt_nrr(x.left) && opt_nrr(x.right),
    }
}

impl RedBlackNode {
    /// The multiset of keys in the subtree rooted here.
    pub open spec fn ms(self) -> Multiset<i32>
        decreases self,
    {
        opt_ms(self.left).insert(self.key).add(opt_ms(self.right))
    }

    /// The number of nodes in the subtree rooted here.
    pub open spec fn count(self) -> nat
        decreases self,
    {
        1 + opt_count(self.left) + opt_count(self.right)
    }

    /// The black-height of the subtree rooted here.
    pub open spec fn bh(self) -> nat
        decreases self,
    {
        opt_bh(self.left) + if self.color is Black { 1nat } else { 0nat }
    }

    /// Both subtrees of every node below have equal black-height.
    pub open spec fn balanced(self) -> bool
        decreases self,
    {
        &&& opt_balanced(self.left)
        &&& opt_balanced(self.right)
        &&& opt_bh(self.left) == opt_bh(self.right)
    }

    /// No red node in this subtree has a red child.
    pub open spec fn nrr(self) -> bool
        decreases self,
    {
        &&& opt_nrr(self.left)
        &&& opt_nrr(self.right)
        &&& self.color is Red ==> opt_color(self.left) is Black && opt_color(self.right) is Black
    }

    /// The search-tree ordering of this subtree: left keys no larger than
    /// the key here, right keys no smaller. Equal keys can sit on either
    /// side because the rebalancing rotations move a freshly inserted
    /// duplicate, which always descends to the right, across its equal
    /// predecessor.
    pub open spec fn ordered(self) -> bool
        decreases self,
    {
        &&& opt_ordered(self.left)
        &&& opt_ordered(self.right)
        &&& all_at_most(opt_ms(self.left), self.key as int)
        &&& all_at_least(opt_ms(self.right), self.key as int)
    }

    /// The in-order key sequence of this subtree.
    pub open spec fn inorder(self) -> Seq<i32>
        decreases self,
    {
        opt_inorder(self.left) + seq![self.key] + opt_inorder(self.right)
    }

    /// All red-black invariants of the subtree rooted here.
    pub open spec fn wf(self) -> bool {
        self.balanced() && self.nrr() && self.ordered()
    }
}

/// Flipping the colour of a subtree's root changes neither its keys, its
/// node count, its ordering, nor the invariants of anything below it.
pub proof fn lemma_flip_top_same_keys(n: Option<Box<RedBlackNode>>)
    ensures
        opt_ms(flip_top(n)) == opt_ms(n),
        opt_count(flip_top(n)) == opt_count(n),
        opt_ordered(flip_top(n)) == opt_ordered(n),
        opt_balanced(flip_top(n)) == opt_balanced(n),
        n is Some ==> flip_top(n) is Some && flip_top(n).unwrap().key == n.unwrap().key
            && flip_top(n).unwrap().color == flip(n.unwrap().color)
            && flip_top(n).unwrap().left == n.unwrap().left
            && flip_top(n).unwrap().right == n.unwrap().right,
        n is Some && opt_color(n) is Red ==> opt_bh(flip_top(n)) == opt_bh(n) + 1,
        n is Some && opt_color(n) is Black ==> opt_bh(flip_top(n)) + 1 == opt_bh(n),
        opt_color(n) is Red && sub_nrr(n) ==> opt_nrr(flip_top(n)),
{
    match n {
        None => {}
        Some(x) => {
            assert(opt_ms(flip_top(n)) =~= opt_ms(n));
        }
    }
}



/// A key sequence that never decreases from left to right.
pub open spec fn non_decreasing(s: Seq<i32>) -> bool {
    forall|i: int, j: int| 0 <= i <= j < s.len() ==> #[trigger] s[i] <= #[trigger] s[j]
}

/// The in-order sequence of a subtree carries exactly its keys.
pub proof fn lemma_inorder_is_ms(n: Option<Box<RedBlackNode>>)
    ensures
        opt_inorder(n).to_multiset() == opt_ms(n),
        opt_inorder(n).len() == opt_count(n),
    decreases n,
{
    broadcast use vstd::seq_lib::group_to_multiset_ensures;

    match n {
        None => {
            assert(opt_inorder(n).to_multiset() =~= opt_ms(n));
        }
        Some(x) => {
            lemma_inorder_is_ms(x.left);
            lemma_inorder_is_ms(x.right);
            vstd::seq_lib::lemma_multiset_commutative(opt_inorder(x.left), seq![x.key]);
            vstd::seq_lib::lemma_multiset_commutative(
                opt_inorder(x.left) + seq![x.key],
                opt_inorder(x.right),
            );
            assert(seq![x.key].to_multiset() =~= Multiset::empty().insert(x.key)) by {
                assert(seq![x.key] =~= Seq::empty().push(x.key));
                assert(Seq::<i32>::empty().to_multiset() =~= Multiset::empty());
            }
            assert(x.inorder() =~= (opt_inorder(x.left) + seq![x.key]) + opt_inorder(x.right));
            assert(opt_inorder(n).to_multiset() =~= opt_ms(n));
        }
    }
}

/// In an ordered subtree the in-order key sequence never decreases.
pub proof fn lemma_inorder_sorted(n: Option<Box<RedBlackNode>>)
    requires
        opt_ordered(n),
    ensures
        non_decreasing(opt_inorder(n)),
    decreases n,
{
    broadcast use vstd::seq_lib::group_to_multiset_ensures;

    match n {
        None => {}
        Some(x) => {
            lemma_inorder_sorted(x.left);
            lemma_inorder_sorted(x.right);
            lemma_inorder_is_ms(x.left);
            lemma_inorder_is_ms(x.right);
            let li = opt_inorder(x.left);
            let ri = opt_inorder(x.right);
            let whole = x.inorder();
            assert forall|i: int, j: int| 0 <= i <= j < whole.len() implies whole[i] <= whole[j] by {
                if i < li.len() {
                    assert(li.contains(li[i]));
                    assert(opt_ms(x.left).count(li[i]) > 0);
                    assert(whole[i] <= x.key);
                }
                if i == li.len() {
                    assert(whole[i] == x.key);
                }
                if i > li.len() {
                    assert(whole[i] == ri[i - li.len() - 1]);
                    assert(ri.contains(ri[i - li.len() - 1]));
                    assert(opt_ms(x.right).count(whole[i]) > 0);
                    assert(whole[i] >= x.key);
                }
                if j < li.len() {
                    assert(whole[j] == li[j]);
                    assert(li.contains(li[j]));
                    assert(opt_ms(x.left).count(whole[j]) > 0);
                    assert(whole[j] <= x.key);
                }
                if j == li.len() {
                    assert(whole[j] == x.key);
                }
                if j > li.len() {
                    assert(ri.contains(ri[j - li.len() - 1]));
                    assert(opt_ms(x.right).count(whole[j]) > 0);
                    assert(whole[j] >= x.key);
                }
            }
        }
    }
}

/// Law: a tree's in-order traversal yields its keys in non-decreasing
/// order.
pub proof fn lemma_tree_inorder_sorted(t: RedBlackTree)
    requires
        t.wf(),
    ensures
        non_decreasing(t.inorder()),
        t.inorder().to_multiset() == t.keys(),
        t.inorder().len() == t.size,
{
    lemma_inorder_sorted(t.root);
    lemma_inorder_is_ms(t.root);
    lemma_count_is_ms_len(t.root);
}

/// Law: appending a key to the empty tree and deleting it again returns
/// that key and restores the empty tree. The hypotheses are exactly what
/// `append` on an empty tree ensures of `t1` and what `delete` of `k` on
/// `t1` then ensures of `t2`.
pub proof fn lemma_append_delete_empty(t1: RedBlackTree, t2: RedBlackTree, k: i32)
    requires
        t1.wf(),
        t1.keys() == Multiset::<i32>::empty().insert(k),
        t2.wf(),
        t2.keys() == t1.keys().remove(k),
    ensures
        t1.keys().count(k) > 0,
        t2.size == 0,
        t2.root is None,
{
    lemma_count_is_ms_len(t1.root);
    lemma_count_is_ms_len(t2.root);
    assert(t2.keys() =~= Multiset::empty());
    if t2.root is Some {
        assert(opt_count(t2.root) >= 1);
    }
}

/// Balanced, red-red-free and ordered, for an optional subtree.
pub open spec fn opt_wf(n: Option<Box<RedBlackNode>>) -> bool {
    opt_balanced(n) && opt_nrr(n) && opt_ordered(n)
}

/// One frame of the deletion protocol: still locating the key, walking to
/// the in-order successor, bubbling the removed node and a replacement
/// subtree upward, or finished with the removed key (if any).
pub enum DeleteState {
    FindForDeleteNode(i32),
    FindForSuccessor,
    TryAdjust(Option<Box<RedBlackNode>>, Box<RedBlackNode>),
    Done(Option<i32>),
}

/// The black-height of the surviving side of a parent whose other side
/// lost its subtree to the ongoing deletion.
pub open spec fn sib_bh(p: RedBlackNode) -> nat {
    if p.left is Some {
        opt_bh(p.left)
    } else {
        opt_bh(p.right)
    }
}

/// The black-height the parent's whole subtree had before the deletion.
pub open spec fn adjust_h(p: RedBlackNode) -> nat {
    sib_bh(p) + if p.color is Black { 1nat } else { 0nat }
}

/// The keys waiting to be reattached on the deficient side: the
/// replacement subtree and whatever children the removed node carried.
pub open spec fn piece_ms(w: Option<Box<RedBlackNode>>, d: RedBlackNode) -> Multiset<i32> {
    opt_ms(w).add(opt_ms(d.left)).add(opt_ms(d.right))
}

/// Every key the parent's subtree held before the removal of `d.key`.
pub open spec fn adjust_ms(p: RedBlackNode, w: Option<Box<RedBlackNode>>, d: RedBlackNode) -> Multiset<i32> {
    opt_ms(p.left).add(opt_ms(p.right)).insert(p.key).add(piece_ms(w, d))
}

/// The repair step applies that absorbs the missing black by recolouring:
/// the surviving sibling is black and so are both of its children.
pub open spec fn case_c_applies(p: RedBlackNode) -> bool {
    match p.left {
        Some(sib) => p.right is None && sib.color is Black && opt_color(sib.left) is Black
            && opt_color(sib.right) is Black,
        None => match p.right {
            Some(sib) => sib.color is Black && opt_color(sib.left) is Black && opt_color(
                sib.right,
            ) is Black,
            None => false,
        },
    }
}

/// The subtree the recolouring repair builds: the parent turned black,
/// the sibling turned red, and the replacement subtree `w` filling the
/// deficient side.
pub open spec fn case_c_rebuilt(p: RedBlackNode, w: Option<Box<RedBlackNode>>) -> RedBlackNode {
    match p.left {
        Some(sib) => RedBlackNode {
            color: Color::Black,
            key: p.key,
            left: Some(
                Box::new(
                    RedBlackNode {
                        color: Color::Red,
                        key: sib.key,
                        left: sib.left,
                        right: sib.right,
                    },
                ),
            ),
            right: w,
        },
        None => match p.right {
            Some(sib) => RedBlackNode {
                color: Color::Black,
                key: p.key,
                left: w,
                right: Some(
                    Box::new(
                        RedBlackNode {
                            color: Color::Red,
                            key: sib.key,
                            left: sib.left,
                            right: sib.right,
                        },
                    ),
                ),
            },
            None => p,
        },
    }
}

/// What `adjust` may assume of a pending [`DeleteState::TryAdjust`] frame:
/// the deficient side of `p` is empty, the pieces are well-formed, black
/// heights line up (one short when the removed node was black), and all
/// pieces belong on the deficient side of `p`'s key.
pub open spec fn adjust_pre(p: RedBlackNode, w: Option<Box<RedBlackNode>>, d: RedBlackNode) -> bool {
    &&& p.left is None || p.right is None
    &&& opt_wf(w)
    &&& opt_color(w) is Black
    &&& opt_wf(p.left)
    &&& opt_wf(p.right)
    &&& p.color is Red ==> opt_color(p.left) is Black && opt_color(p.right) is Black
    &&& opt_wf(d.left)
    &&& opt_wf(d.right)
    &&& d.balanced()
    &&& d.nrr()
    &&& !(d.left is Some && d.right is Some)
    &&& d.color is Black ==> opt_bh(w) + 1 == sib_bh(p) && sib_bh(p) >= 1
    &&& d.color is Red ==> w is None && d.left is None && d.right is None && sib_bh(p) == 0
    &&& (d.left is Some || d.right is Some) ==> w is None && sib_bh(p) == 1
    &&& all_at_most(opt_ms(p.left), p.key as int)
    &&& all_at_least(opt_ms(p.right), p.key as int)
    &&& p.right is None ==> all_at_least(piece_ms(w, d), p.key as int)
    &&& p.left is None ==> all_at_most(piece_ms(w, d), p.key as int)
}

/// The two shapes in which a deletion frame hands its parent a pending
/// adjustment: the removed node fresh from its position with at most one
/// child still attached, or a childless black node whose position is
/// already filled by a replacement subtree one black short.
pub open spec fn ta_shape(m: RedBlackNode, w: Option<Box<RedBlackNode>>, d: RedBlackNode) -> bool {
    ||| (w is None && d == m && !(d.left is Some && d.right is Some))
    ||| {
        &&& w is Some
        &&& d.left is None
        &&& d.right is None
        &&& d.color is Black
        &&& opt_wf(w)
        &&& opt_color(w) is Black
        &&& opt_bh(w) + 1 == m.bh()
        &&& m.bh() >= 1
        &&& opt_ms(w).insert(d.key) == m.ms()
    }
}

/// The contract of a deletion frame that was searching for `k` in the
/// subtree `m`.
pub open spec fn delete_post_found(m: RedBlackNode, k: i32, r: (Option<Box<RedBlackNode>>, DeleteState)) -> bool {
    match r.1 {
        DeleteState::Done(opt) => match opt {
            None => m.ms().count(k) == 0 && (match r.0 {
                Some(b) => *b == m,
                None => false,
            }),
            Some(x) => x == k && m.ms().count(k) > 0 && (match r.0 {
                Some(b) => {
                    &&& b.balanced()
                    &&& b.nrr()
                    &&& b.ordered()
                    &&& b.bh() == m.bh()
                    &&& b.ms() == m.ms().remove(k)
                    &&& b.color is Red ==> m.color is Red
                }
                None => false,
            }),
        },
        DeleteState::TryAdjust(w, d) => {
            &&& r.0 is None
            &&& m.ms().count(k) > 0
            &&& d.key == k
            &&& ta_shape(m, w, *d)
        }
        _ => false,
    }
}

/// The contract of a deletion frame that was unlinking the smallest key of
/// the subtree `m` (the in-order successor of the node above).
pub open spec fn delete_post_succ(m: RedBlackNode, r: (Option<Box<RedBlackNode>>, DeleteState)) -> bool {
    match r.1 {
        DeleteState::Done(opt) => match opt {
            None => false,
            Some(x) => m.ms().count(x) > 0 && all_at_least(m.ms(), x as int) && (match r.0 {
                Some(b) => {
                    &&& b.balanced()
                    &&& b.nrr()
                    &&& b.ordered()
                    &&& b.bh() == m.bh()
                    &&& b.ms() == m.ms().remove(x)
                    &&& b.color is Red ==> m.color is Red
                }
                None => false,
            }),
        },
        DeleteState::TryAdjust(w, d) => {
            &&& r.0 is None
            &&& m.ms().count(d.key) > 0
            &&& all_at_least(m.ms(), d.key as int)
            &&& ta_shape(m, w, *d)
            &&& w is None ==> d.left is None
        }
        _ => false,
    }
}

/// A well-formed node with at most one child sits at the bottom of the
/// tree: a red node has no child at all, a black one has black-height one,
/// and a lone child is a red leaf.
pub proof fn lemma_low_node(d: RedBlackNode)
    requires
        d.balanced(),
        d.nrr(),
        !(d.left is Some && d.right is Some),
    ensures
        d.color is Red ==> d.left is None && d.right is None,
        d.color is Black ==> d.bh() == 1,
        d.left is Some ==> d.color is Black && d.left.unwrap().color is Red
            && d.left.unwrap().left is None && d.left.unwrap().right is None,
        d.right is Some ==> d.color is Black && d.right.unwrap().color is Red
            && d.right.unwrap().left is None && d.right.unwrap().right is None,
        opt_bh(d.left) == 0 && opt_bh(d.right) == 0,
{
    if d.left is Some {
        let x = *d.left.unwrap();
        assert(x.nrr() && x.balanced());
        assert(opt_bh(d.right) == 0);
        assert(x.bh() == 0);
        if x.color is Black {
            assert(x.bh() >= 1);
        }
        assert(x.color is Red);
        if d.color is Red {
            assert(opt_color(d.left) is Red);
            assert(false);
        }
        assert(opt_bh(x.left) == 0 && opt_bh(x.right) == 0);
        if x.left is Some {
            let y = *x.left.unwrap();
            assert(y.bh() == 0);
            if y.color is Black {
                assert(y.bh() >= 1);
            }
            assert(opt_color(x.left) is Red);
            assert(false);
        }
        if x.right is Some {
            let y = *x.right.unwrap();
            assert(y.bh() == 0);
            if y.color is Black {
                assert(y.bh() >= 1);
            }
            assert(opt_color(x.right) is Red);
            assert(false);
        }
    }
    if d.right is Some {
        let x = *d.right.unwrap();
        assert(x.nrr() && x.balanced());
        assert(opt_bh(d.left) == 0);
        assert(x.bh() == 0);
        if x.color is Black {
            assert(x.bh() >= 1);
        }
        assert(x.color is Red);
        if d.color is Red {
            assert(opt_color(d.right) is Red);
            assert(false);
        }
        assert(opt_bh(x.left) == 0 && opt_bh(x.right) == 0);
        if x.left is Some {
            let y = *x.left.unwrap();
            assert(y.bh() == 0);
            if y.color is Black {
                assert(y.bh() >= 1);
            }
            assert(opt_color(x.left) is Red);
            assert(false);
        }
        if x.right is Some {
            let y = *x.right.unwrap();
            assert(y.bh() == 0);
            if y.color is Black {
                assert(y.bh() >= 1);
            }
            assert(opt_color(x.right) is Red);
            assert(false);
        }
    }
}

/// A subtree holds as many nodes as its key multiset has elements.
pub proof fn lemma_count_is_ms_len(n: Option<Box<RedBlackNode>>)
    ensures
        opt_count(n) == opt_ms(n).len(),
    decreases n,
{
    broadcast use vstd::multiset::group_multiset_axioms;

    match n {
        None => {
            assert(opt_ms(n) =~= Multiset::empty());
        }
        Some(x) => {
            lemma_count_is_ms_len(x.left);
            lemma_count_is_ms_len(x.right);
        }
    }
}

/// A key in either side of a node is a key of the node's subtree.
pub proof fn lemma_ms_parts(x: RedBlackNode)
    ensures
        forall|k: i32| #[trigger] opt_ms(x.left).count(k) > 0 ==> x.ms().count(k) > 0,
        forall|k: i32| #[trigger] opt_ms(x.right).count(k) > 0 ==> x.ms().count(k) > 0,
        x.ms().count(x.key) > 0,
{
}

/// Removing one key keeps every remaining key a key of the original.
pub proof fn lemma_insert_part(m: Multiset<i32>, w: Multiset<i32>, k: i32)
    requires
        w.insert(k) == m,
    ensures
        forall|x: i32| #[trigger] w.count(x) > 0 ==> m.count(x) > 0,
{
    assert forall|x: i32| w.count(x) > 0 implies m.count(x) > 0 by {
        assert(m.count(x) == w.insert(k).count(x));
    }
}

/// Packages the clauses of [`adjust_pre`], letting a caller discharge
/// them one at a time.
pub proof fn lemma_assemble_pre(p: RedBlackNode, w: Option<Box<RedBlackNode>>, d: RedBlackNode)
    requires
        p.left is None || p.right is None,
        opt_wf(w),
        opt_color(w) is Black,
        opt_wf(p.left),
        opt_wf(p.right),
        p.color is Red ==> opt_color(p.left) is Black && opt_color(p.right) is Black,
        opt_wf(d.left),
        opt_wf(d.right),
        d.balanced(),
        d.nrr(),
        !(d.left is Some && d.right is Some),
        d.color is Black ==> opt_bh(w) + 1 == sib_bh(p) && sib_bh(p) >= 1,
        d.color is Red ==> w is None && d.left is None && d.right is None && sib_bh(p) == 0,
        (d.left is Some || d.right is Some) ==> w is None && sib_bh(p) == 1,
        all_at_most(opt_ms(p.left), p.key as int),
        all_at_least(opt_ms(p.right), p.key as int),
        p.right is None ==> all_at_least(piece_ms(w, d), p.key as int),
        p.left is None ==> all_at_most(piece_ms(w, d), p.key as int),
    ensures
        adjust_pre(p, w, d),
{
}

impl RedBlackTree {
    /// The multiset of keys held by the tree.
    pub open spec fn keys(self) -> Multiset<i32> {
        opt_ms(self.root)
    }

    /// The in-order key sequence of the tree.
    pub open spec fn inorder(self) -> Seq<i32> {
        opt_inorder(self.root)
    }

    /// The red-black invariants, together with a black root and an
    /// accurate element count.
    pub open spec fn wf(self) -> bool {
        &&& opt_balanced(self.root)
        &&& opt_nrr(self.root)
        &&& opt_ordered(self.root)
        &&& opt_color(self.root) is Black
        &&& self.size == opt_count(self.root)
    }

    /// The empty tree.
    pub fn new() -> (r: Self)
        ensures
            r.wf(),
            r.size == 0,
            r.root is None,
            r.keys() == Multiset::<i32>::empty(),
    {
        proof {
            assert(opt_ms(None::<Box<RedBlackNode>>) =~= Multiset::<i32>::empty());
        }
        RedBlackTree { size: 0, root: None }
    }
}

impl RedBlackTree {
    /// Inserts `key`; equal keys accumulate in the right subtree. The
    /// element count grows by one and the root is unconditionally forced
    /// black afterwards.
    pub fn append(&mut self, key: i32)
        requires
            old(self).wf(),
            old(self).size < usize::MAX,
        ensures
            final(self).wf(),
            final(self).size == old(self).size + 1,
            final(self).keys() == old(self).keys().insert(key),
            old(self).root is None ==> final(self).root == Some(
                Box::new(RedBlackNode { color: Color::Black, key, left: None, right: None }),
            ),
            old(self).root matches Some(b) ==> ((b.left is None && key < b.key)
                ==> final(self).root == Some(
                Box::new(
                    RedBlackNode {
                        color: Color::Black,
                        key: b.key,
                        left: Some(
                            Box::new(RedBlackNode { color: Color::Red, key, left: None, right: None }),
                        ),
                        right: b.right,
                    },
                ),
            )),
            old(self).root matches Some(b) ==> ((b.right is None && key >= b.key)
                ==> final(self).root == Some(
                Box::new(
                    RedBlackNode {
                        color: Color::Black,
                        key: b.key,
                        left: b.left,
                        right: Some(
                            Box::new(RedBlackNode { color: Color::Red, key, left: None, right: None }),
                        ),
                    },
                ),
            )),
    {
        match self.root.take() {
            Some(root) => {
                let (mut root, _) = (*root).append(key);
                root.set_color_black();
                self.root = Some(root);
            }
            None => {
                let mut root = Box::new(RedBlackNode::from(key));
                root.set_color_black();
                self.root = Some(root);
                proof {
                    assert(opt_ms(self.root) =~= opt_ms(old(self).root).insert(key));
                }
            }
        }
        self.size = self.size + 1;
    }

    /// Removes one occurrence of `key`. Returns the removed key, or
    /// `None` — leaving the tree untouched — when it is absent.
    #[verifier::rlimit(100)]
    pub fn delete(&mut self, key: &i32) -> (r: Option<i32>)
        requires
            old(self).wf(),
        ensures
            final(self).wf(),
            old(self).keys().count(*key) > 0 ==> r == Some(*key)
                && final(self).keys() == old(self).keys().remove(*key)
                && final(self).size == old(self).size - 1,
            old(self).keys().count(*key) == 0 ==> r is None && *final(self) == *old(self),
    {
        match self.root.take() {
            Some(root) => {
                let ghost m0 = *root;
                proof {
                    lemma_count_is_ms_len(Some(root));
                    lemma_count_is_ms_len(None::<Box<RedBlackNode>>);
                }
                match (*root).delete(DeleteState::FindForDeleteNode(*key)) {
                    (root2, DeleteState::Done(result)) => {
                        self.root = root2;
                        match result {
                            Some(result) => {
                                proof {
                                    assert(m0.ms().remove(*key).insert(*key) =~= m0.ms());
                                    lemma_count_is_ms_len(self.root);
                                }
                                self.size = self.size - 1;
                                Some(result)
                            }
                            None => None,
                        }
                    }
                    (_, DeleteState::TryAdjust(node, to_be_deleted)) => {
                        proof {
                            assert(m0.ms().count(*key) > 0);
                            assert(m0.ms().remove(*key).insert(*key) =~= m0.ms());
                        }
                        match node {
                            Some(root2) => {
                                self.root = Some(root2);
                                proof {
                                    lemma_count_is_ms_len(self.root);
                                }
                                self.size = self.size - 1;
                                Some(to_be_deleted.key)
                            }
                            None => {
                                let ghost d0 = *to_be_deleted;
                                let (root2, removed) = RedBlackNode::delete_root(to_be_deleted);
                                self.root = root2;
                                proof {
                                    assert(d0 == m0);
                                    lemma_count_is_ms_len(self.root);
                                }
                                self.size = self.size - 1;
                                Some(removed)
                            }
                        }
                    }
                    _ => unreached(),
                }
            }
            None => None,
        }
    }
}


impl Clone for RedBlackNode {
    /// A deep copy, equal to the original.
    fn clone(&self) -> (r: Self)
        ensures
            r == *self,
        decreases *self,
    {
        RedBlackNode {
            color: self.color,
            key: self.key,
            left: match &self.left {
                Some(node) => Some(Box::new((**node).clone())),
                None => None,
            },
            right: match &self.right {
                Some(node) => Some(Box::new((**node).clone())),
                None => None,
            },
        }
    }
}

impl RedBlackTree {
    /// The tree three plain appends build, with the keys to append.
    #[verifier::rlimit(100)]
    pub fn gen_data_for_test_append_base() -> (r: (Self, Vec<i32>))
        ensures
            r.0 == (RedBlackTree {
                size: 3,
                root: Some(Box::new(RedBlackNode {
                    color: Color::Black,
                    key: 2,
                    left: Some(Box::new(RedBlackNode {
                        color: Color::Red,
                        key: 1,
                        left: None,
                        right: None,
                    })),
                    right: Some(Box::new(RedBlackNode {
                        color: Color::Red,
                        key: 3,
                        left: None,
                        right: None,
                    })),
                })),
            }),
            r.0.wf(),
            r.1@ == seq![2i32, 1i32, 3i32],
    {
        let n_1 = RedBlackNode { color: Color::Red, key: 1, left: None, right: None };
        proof {
            assert(n_1.ms() =~= Multiset::<i32>::empty().insert(1));
            assert(n_1.balanced() && n_1.nrr() && n_1.ordered());
            assert(n_1.bh() == 0 && n_1.count() == 1);
        }
        let n_2 = RedBlackNode { color: Color::Red, key: 3, left: None, right: None };
        proof {
            assert(n_2.ms() =~= Multiset::<i32>::empty().insert(3));
            assert(n_2.balanced() && n_2.nrr() && n_2.ordered());
            assert(n_2.bh() == 0 && n_2.count() == 1);
        }
        let n_3 = RedBlackNode { color: Color::Black, key: 2, left: Some(Box::new(n_1)), right: Some(Box::new(n_2)) };
        proof {
            assert(n_3.ms() =~= Multiset::<i32>::empty().insert(1).insert(2).insert(3));
            assert(n_3.balanced() && n_3.nrr() && n_3.ordered());
            assert(n_3.bh() == 1 && n_3.count() == 3);
        }
        let rbt = RedBlackTree { size: 3, root: Some(Box::new(n_3)) };
        proof {
            assert(rbt.wf());
        }
        let keys = vec![2, 1, 3];
        proof {
            assert(keys@ =~= seq![2i32, 1i32, 3i32]);
        }
        (rbt, keys)
    }

    /// The tree after one recolouring pass, with the keys to append.
    #[verifier::rlimit(100)]
    pub fn gen_data_for_test_append_change_color_once() -> (r: (Self, Vec<i32>))
        ensures
            r.0 == (RedBlackTree {
                size: 4,
                root: Some(Box::new(RedBlackNode {
                    color: Color::Black,
                    key: 7,
                    left: Some(Box::new(RedBlackNode {
                        color: Color::Black,
                        key: 5,
                        left: Some(Box::new(RedBlackNode {
                            color: Color::Red,
                            key: 1,
                            left: None,
                            right: None,
                        })),
                        right: None,
                    })),
                    right: Some(Box::new(RedBlackNode {
                        color: Color::Black,
                        key: 8,
                        left: None,
                        right: None,
                    })),
                })),
            }),
            r.0.wf(),
            r.1@ == seq![7i32, 5i32, 8i32, 1i32],
    {
        let n_1 = RedBlackNode { color: Color::Red, key: 1, left: None, right: None };
        proof {
            assert(n_1.ms() =~= Multiset::<i32>::empty().insert(1));
            assert(n_1.balanced() && n_1.nrr() && n_1.ordered());
            assert(n_1.bh() == 0 && n_1.count() == 1);
        }
        let n_2 = RedBlackNode { color: Color::Black, key: 5, left: Some(Box::new(n_1)), right: None };
        proof {
            assert(n_2.ms() =~= Multiset::<i32>::empty().insert(1).insert(5));
            assert(n_2.balanced() && n_2.nrr() && n_2.ordered());
            assert(n_2.bh() == 1 && n_2.count() == 2);
        }
        let n_3 = RedBlackNode { color: Color::Black, key: 8, left: None, right: None };
        proof {
            assert(n_3.ms() =~= Multiset::<i32>::empty().insert(8));
            assert(n_3.balanced() && n_3.nrr() && n_3.ordered());
            assert(n_3.bh() == 1 && n_3.count() == 1);
        }
        let n_4 = RedBlackNode { color: Color::Black, key: 7, left: Some(Box::new(n_2)), right: Some(Box::new(n_3)) };
        proof {
            assert(n_4.ms() =~= Multiset::<i32>::empty().insert(1).insert(5).insert(7).insert(8));
            assert(n_4.balanced() && n_4.nrr() && n_4.ordered());
            assert(n_4.bh() == 2 && n_4.count() == 4);
        }
        let rbt = RedBlackTree { size: 4, root: Some(Box::new(n_4)) };
        proof {
            assert(rbt.wf());
        }
        let keys = vec![7, 5, 8, 1];
        proof {
            assert(keys@ =~= seq![7i32, 5i32, 8i32, 1i32]);
        }
        (rbt, keys)
    }

    /// The tree a left-left repair produces, with the keys to append.
    #[verifier::rlimit(100)]
    pub fn gen_data_for_test_append_ll() -> (r: (Self, Vec<i32>))
        ensures
            r.0 == (RedBlackTree {
                size: 3,
                root: Some(Box::new(RedBlackNode {
                    color: Color::Black,
                    key: 5,
                    left: Some(Box::new(RedBlackNode {
                        color: Color::Red,
                        key: 1,
                        left: None,
                        right: None,
                    })),
                    right: Some(Box::new(RedBlackNode {
                        color: Color::Red,
                        key: 7,
                        left: None,
                        right: None,
                    })),
                })),
            }),
            r.0.wf(),
            r.1@ == seq![7i32, 5i32, 1i32],
    {
        let n_1 = RedBlackNode { color: Color::Red, key: 1, left: None, right: None };
        proof {
            assert(n_1.ms() =~= Multiset::<i32>::empty().insert(1));
            assert(n_1.balanced() && n_1.nrr() && n_1.ordered());
            assert(n_1.bh() == 0 && n_1.count() == 1);
        }
        let n_2 = RedBlackNode { color: Color::Red, key: 7, left: None, right: None };
        proof {
            assert(n_2.ms() =~= Multiset::<i32>::empty().insert(7));
            assert(n_2.balanced() && n_2.nrr() && n_2.ordered());
            assert(n_2.bh() == 0 && n_2.count() == 1);
        }
        let n_3 = RedBlackNode { color: Color::Black, key: 5, left: Some(Box::new(n_1)), right: Some(Box::new(n_2)) };
        proof {
            assert(n_3.ms() =~= Multiset::<i32>::empty().insert(1).insert(5).insert(7));
            assert(n_3.balanced() && n_3.nrr() && n_3.ordered());
            assert(n_3.bh() == 1 && n_3.count() == 3);
        }
        let rbt = RedBlackTree { size: 3, root: Some(Box::new(n_3)) };
        proof {
            assert(rbt.wf());
        }
        let keys = vec![7, 5, 1];
        proof {
            assert(keys@ =~= seq![7i32, 5i32, 1i32]);
        }
        (rbt, keys)
    }

    /// The tree a right-right repair produces, with the keys to append.
    #[verifier::rlimit(100)]
    pub fn gen_data_for_test_append_rr() -> (r: (Self, Vec<i32>))
        ensures
            r.0 == (RedBlackTree {
                size: 3,
                root: Some(Box::new(RedBlackNode {
                    color: Color::Black,
                    key: 9,
                    left: Some(Box::new(RedBlackNode {
                        color: Color::Red,
                        key: 7,
                        left: None,
                        right: None,
                    })),
                    right: Some(Box::new(RedBlackNode {
                        color: Color::Red,
                        key: 12,
                        left: None,
                        right: None,
                    })),
                })),
            }),
            r.0.wf(),
            r.1@ == seq![7i32, 9i32, 12i32],
    {
        let n_1 = RedBlackNode { color: Color::Red, key: 7, left: None, right: None };
        proof {
            assert(n_1.ms() =~= Multiset::<i32>::empty().insert(7));
            assert(n_1.balanced() && n_1.nrr() && n_1.ordered());
            assert(n_1.bh() == 0 && n_1.count() == 1);
        }
        let n_2 = RedBlackNode { color: Color::Red, key: 12, left: None, right: None };
        proof {
            assert(n_2.ms() =~= Multiset::<i32>::empty().insert(12));
            assert(n_2.balanced() && n_2.nrr() && n_2.ordered());
            assert(n_2.bh() == 0 && n_2.count() == 1);
        }
        let n_3 = RedBlackNode { color: Color::Black, key: 9, left: Some(Box::new(n_1)), right: Some(Box::new(n_2)) };
        proof {
            assert(n_3.ms() =~= Multiset::<i32>::empty().insert(7).insert(9).insert(12));
            assert(n_3.balanced() && n_3.nrr() && n_3.ordered());
            assert(n_3.bh() == 1 && n_3.count() == 3);
        }
        let rbt = RedBlackTree { size: 3, root: Some(Box::new(n_3)) };
        proof {
            assert(rbt.wf());
        }
        let keys = vec![7, 9, 12];
        proof {
            assert(keys@ =~= seq![7i32, 9i32, 12i32]);
        }
        (rbt, keys)
    }

    /// The tree a left-right repair produces, with the keys to append.
    #[verifier::rlimit(100)]
    pub fn gen_data_for_test_append_lr() -> (r: (Self, Vec<i32>))
        ensures
            r.0 == (RedBlackTree {
                size: 3,
                root: Some(Box::new(RedBlackNode {
                    color: Color::Black,
                    key: 5,
                    left: Some(Box::new(RedBlackNode {
                        color: Color::Red,
                        key: 3,
                        left: None,
                        right: None,
                    })),
                    right: Some(Box::new(RedBlackNode {
                        color: Color::Red,
                        key: 7,
                        left: None,
                        right: None,
                    })),
                })),
            }),
            r.0.wf(),
            r.1@ == seq![7i32, 3i32, 5i32],
    {
        let n_1 = RedBlackNode { color: Color::Red, key: 3, left: None, right: None };
        proof {
            assert(n_1.ms() =~= Multiset::<i32>::empty().insert(3));
            assert(n_1.balanced() && n_1.nrr() && n_1.ordered());
            assert(n_1.bh() == 0 && n_1.count() == 1);
        }
        let n_2 = RedBlackNode { color: Color::Red, key: 7, left: None, right: None };
        proof {
            assert(n_2.ms() =~= Multiset::<i32>::empty().insert(7));
            assert(n_2.balanced() && n_2.nrr() && n_2.ordered());
            assert(n_2.bh() == 0 && n_2.count() == 1);
        }
        let n_3 = RedBlackNode { color: Color::Black, key: 5, left: Some(Box::new(n_1)), right: Some(Box::new(n_2)) };
        proof {
            assert(n_3.ms() =~= Multiset::<i32>::empty().insert(3).insert(5).insert(7));
            assert(n_3.balanced() && n_3.nrr() && n_3.ordered());
            assert(n_3.bh() == 1 && n_3.count() == 3);
        }
        let rbt = RedBlackTree { size: 3, root: Some(Box::new(n_3)) };
        proof {
            assert(rbt.wf());
        }
        let keys = vec![7, 3, 5];
        proof {
            assert(keys@ =~= seq![7i32, 3i32, 5i32]);
        }
        (rbt, keys)
    }

    /// The tree a right-left repair produces, with the keys to append.
    #[verifier::rlimit(100)]
    pub fn gen_data_for_test_append_rl() -> (r: (Self, Vec<i32>))
        ensures
            r.0 == (RedBlackTree {
                size: 3,
                root: Some(Box::new(RedBlackNode {
                    color: Color::Black,
                    key: 8,
                    left: Some(Box::new(RedBlackNode {
                        color: Color::Red,
                        key: 7,
                        left: None,
                        right: None,
                    })),
                    right: Some(Box::new(RedBlackNode {
                        color: Color::Red,
                        key: 12,
                        left: None,
                        right: None,
                    })),
                })),
            }),
            r.0.wf(),
            r.1@ == seq![7i32, 12i32, 8i32],
    {
        let n_1 = RedBlackNode { color: Color::Red, key: 7, left: None, right: None };
        proof {
            assert(n_1.ms() =~= Multiset::<i32>::empty().insert(7));
            assert(n_1.balanced() && n_1.nrr() && n_1.ordered());
            assert(n_1.bh() == 0 && n_1.count() == 1);
        }
        let n_2 = RedBlackNode { color: Color::Red, key: 12, left: None, right: None };
        proof {
            assert(n_2.ms() =~= Multiset::<i32>::empty().insert(12));
            assert(n_2.balanced() && n_2.nrr() && n_2.ordered());
            assert(n_2.bh() == 0 && n_2.count() == 1);
        }
        let n_3 = RedBlackNode { color: Color::Black, key: 8, left: Some(Box::new(n_1)), right: Some(Box::new(n_2)) };
        proof {
            assert(n_3.ms() =~= Multiset::<i32>::empty().insert(7).insert(8).insert(12));
            assert(n_3.balanced() && n_3.nrr() && n_3.ordered());
            assert(n_3.bh() == 1 && n_3.count() == 3);
        }
        let rbt = RedBlackTree { size: 3, root: Some(Box::new(n_3)) };
        proof {
            assert(rbt.wf());
        }
        let keys = vec![7, 12, 8];
        proof {
            assert(keys@ =~= seq![7i32, 12i32, 8i32]);
        }
        (rbt, keys)
    }

    /// A tree whose construction repairs several levels on one unwind, with the keys to append.
    #[verifier::rlimit(100)]
    pub fn gen_data_for_test_append_multiple_adjust() -> (r: (Self, Vec<i32>))
        ensures
            r.0 == (RedBlackTree {
                size: 11,
                root: Some(Box::new(RedBlackNode {
                    color: Color::Black,
                    key: 15,
                    left: Some(Box::new(RedBlackNode {
                        color: Color::Black,
                        key: 8,
                        left: Some(Box::new(RedBlackNode {
                            color: Color::Black,
                            key: 6,
                            left: Some(Box::new(RedBlackNode {
                                color: Color::Red,
                                key: 5,
                                left: None,
                                right: None,
                            })),
                            right: None,
                        })),
                        right: Some(Box::new(RedBlackNode {
                            color: Color::Black,
                            key: 9,
                            left: None,
                            right: None,
                        })),
                    })),
                    right: Some(Box::new(RedBlackNode {
                        color: Color::Black,
                        key: 18,
                        left: Some(Box::new(RedBlackNode {
                            color: Color::Black,
                            key: 17,
                            left: None,
                            right: None,
                        })),
                        right: Some(Box::new(RedBlackNode {
                            color: Color::Red,
                            key: 27,
                            left: Some(Box::new(RedBlackNode {
                                color: Color::Black,
                                key: 23,
                                left: None,
                                right: Some(Box::new(RedBlackNode {
                                    color: Color::Red,
                                    key: 25,
                                    left: None,
                                    right: None,
                                })),
                            })),
                            right: Some(Box::new(RedBlackNode {
                                color: Color::Black,
                                key: 34,
                                left: None,
                                right: None,
                            })),
                        })),
                    })),
                })),
            }),
            r.0.wf(),
            r.1@ == seq![17i32, 18i32, 23i32, 34i32, 27i32, 15i32, 9i32, 6i32, 8i32, 5i32, 25i32],
    {
        let n_1 = RedBlackNode { color: Color::Red, key: 5, left: None, right: None };
        proof {
            assert(n_1.ms() =~= Multiset::<i32>::empty().insert(5));
            assert(n_1.balanced() && n_1.nrr() && n_1.ordered());
            assert(n_1.bh() == 0 && n_1.count() == 1);
        }
        let n_2 = RedBlackNode { color: Color::Black, key: 6, left: Some(Box::new(n_1)), right: None };
        proof {
            assert(n_2.ms() =~= Multiset::<i32>::empty().insert(5).insert(6));
            assert(n_2.balanced() && n_2.nrr() && n_2.ordered());
            assert(n_2.bh() == 1 && n_2.count() == 2);
        }
        let n_3 = RedBlackNode { color: Color::Black, key: 9, left: None, right: None };
        proof {
            assert(n_3.ms() =~= Multiset::<i32>::empty().insert(9));
            assert(n_3.balanced() && n_3.nrr() && n_3.ordered());
            assert(n_3.bh() == 1 && n_3.count() == 1);
        }
        let n_4 = RedBlackNode { color: Color::Black, key: 8, left: Some(Box::new(n_2)), right: Some(Box::new(n_3)) };
        proof {
            assert(n_4.ms() =~= Multiset::<i32>::empty().insert(5).insert(6).insert(8).insert(9));
            assert(n_4.balanced() && n_4.nrr() && n_4.ordered());
            assert(n_4.bh() == 2 && n_4.count() == 4);
        }
        let n_5 = RedBlackNode { color: Color::Black, key: 17, left: None, right: None };
        proof {
            assert(n_5.ms() =~= Multiset::<i32>::empty().insert(17));
            assert(n_5.balanced() && n_5.nrr() && n_5.ordered());
            assert(n_5.bh() == 1 && n_5.count() == 1);
        }
        let n_6 = RedBlackNode { color: Color::Red, key: 25, left: None, right: None };
        proof {
            assert(n_6.ms() =~= Multiset::<i32>::empty().insert(25));
            assert(n_6.balanced() && n_6.nrr() && n_6.ordered());
            assert(n_6.bh() == 0 && n_6.count() == 1);
        }
        let n_7 = RedBlackNode { color: Color::Black, key: 23, left: None, right: Some(Box::new(n_6)) };
        proof {
            assert(n_7.ms() =~= Multiset::<i32>::empty().insert(23).insert(25));
            assert(n_7.balanced() && n_7.nrr() && n_7.ordered());
            assert(n_7.bh() == 1 && n_7.count() == 2);
        }
        let n_8 = RedBlackNode { color: Color::Black, key: 34, left: None, right: None };
        proof {
            assert(n_8.ms() =~= Multiset::<i32>::empty().insert(34));
            assert(n_8.balanced() && n_8.nrr() && n_8.ordered());
            assert(n_8.bh() == 1 && n_8.count() == 1);
        }
        let n_9 = RedBlackNode { color: Color::Red, key: 27, left: Some(Box::new(n_7)), right: Some(Box::new(n_8)) };
        proof {
            assert(n_9.ms() =~= Multiset::<i32>::empty().insert(23).insert(25).insert(27).insert(34));
            assert(n_9.balanced() && n_9.nrr() && n_9.ordered());
            assert(n_9.bh() == 1 && n_9.count() == 4);
        }
        let n_10 = RedBlackNode { color: Color::Black, key: 18, left: Some(Box::new(n_5)), right: Some(Box::new(n_9)) };
        proof {
            assert(n_10.ms() =~= Multiset::<i32>::empty().insert(17).insert(18).insert(23).insert(25).insert(27).insert(34));
            assert(n_10.balanced() && n_10.nrr() && n_10.ordered());
            assert(n_10.bh() == 2 && n_10.count() == 6);
        }
        let n_11 = RedBlackNode { color: Color::Black, key: 15, left: Some(Box::new(n_4)), right: Some(Box::new(n_10)) };
        proof {
            assert(n_11.ms() =~= Multiset::<i32>::empty().insert(5).insert(6).insert(8).insert(9).insert(15).insert(17).insert(18).insert(23).insert(25).insert(27).insert(34));
            assert(n_11.balanced() && n_11.nrr() && n_11.ordered());
            assert(n_11.bh() == 3 && n_11.count() == 11);
        }
        let rbt = RedBlackTree { size: 11, root: Some(Box::new(n_11)) };
        proof {
            assert(rbt.wf());
        }
        let keys = vec![17, 18, 23, 34, 27, 15, 9, 6, 8, 5, 25];
        proof {
            assert(keys@ =~= seq![17i32, 18i32, 23i32, 34i32, 27i32, 15i32, 9i32, 6i32, 8i32, 5i32, 25i32]);
        }
        (rbt, keys)
    }

    /// Appends and deletions that leave the tree empty again.
    pub fn gen_data_for_delete_just_a_node() -> (r: (RedBlackTree, Vec<i32>, Vec<i32>))
        ensures
            r.0 == (RedBlackTree { size: 0, root: None }),
            r.0.wf(),
            r.1@ == seq![5i32],
            r.2@ == seq![5i32],
    {
        let rbt = RedBlackTree::new();
        let appends = vec![5];
        let deletes = vec![5];
        proof {
            assert(appends@ =~= seq![5i32]);
        }
        proof {
            assert(deletes@ =~= seq![5i32]);
        }
        (rbt, appends, deletes)
    }

    /// Deleting a node that still owns a left child.
    #[verifier::rlimit(100)]
    pub fn gen_data_for_delete_node_with_a_left_child() -> (r: (RedBlackTree, Vec<i32>, Vec<i32>))
        ensures
            r.0 == (RedBlackTree {
                size: 3,
                root: Some(Box::new(RedBlackNode {
                    color: Color::Black,
                    key: 10,
                    left: Some(Box::new(RedBlackNode {
                        color: Color::Black,
                        key: 1,
                        left: None,
                        right: None,
                    })),
                    right: Some(Box::new(RedBlackNode {
                        color: Color::Black,
                        key: 20,
                        left: None,
                        right: None,
                    })),
                })),
            }),
            r.0.wf(),
            r.1@ == seq![10i32, 20i32, 5i32, 1i32],
            r.2@ == seq![5i32],
    {
        let n_1 = RedBlackNode { color: Color::Black, key: 1, left: None, right: None };
        proof {
            assert(n_1.ms() =~= Multiset::<i32>::empty().insert(1));
            assert(n_1.balanced() && n_1.nrr() && n_1.ordered());
            assert(n_1.bh() == 1 && n_1.count() == 1);
        }
        let n_2 = RedBlackNode { color: Color::Black, key: 20, left: None, right: None };
        proof {
            assert(n_2.ms() =~= Multiset::<i32>::empty().insert(20));
            assert(n_2.balanced() && n_2.nrr() && n_2.ordered());
            assert(n_2.bh() == 1 && n_2.count() == 1);
        }
        let n_3 = RedBlackNode { color: Color::Black, key: 10, left: Some(Box::new(n_1)), right: Some(Box::new(n_2)) };
        proof {
            assert(n_3.ms() =~= Multiset::<i32>::empty().insert(1).insert(10).insert(20));
            assert(n_3.balanced() && n_3.nrr() && n_3.ordered());
            assert(n_3.bh() == 2 && n_3.count() == 3);
        }
        let rbt = RedBlackTree { size: 3, root: Some(Box::new(n_3)) };
        proof {
            assert(rbt.wf());
        }
        let appends = vec![10, 20, 5, 1];
        let deletes = vec![5];
        proof {
            assert(appends@ =~= seq![10i32, 20i32, 5i32, 1i32]);
        }
        proof {
            assert(deletes@ =~= seq![5i32]);
        }
        (rbt, appends, deletes)
    }

    /// Deleting a node that still owns a right child.
    #[verifier::rlimit(100)]
    pub fn gen_data_for_delete_node_with_a_right_child() -> (r: (RedBlackTree, Vec<i32>, Vec<i32>))
        ensures
            r.0 == (RedBlackTree {
                size: 3,
                root: Some(Box::new(RedBlackNode {
                    color: Color::Black,
                    key: 20,
                    left: Some(Box::new(RedBlackNode {
                        color: Color::Black,
                        key: 10,
                        left: None,
                        right: None,
                    })),
                    right: Some(Box::new(RedBlackNode {
                        color: Color::Black,
                        key: 40,
                        left: None,
                        right: None,
                    })),
                })),
            }),
            r.0.wf(),
            r.1@ == seq![10i32, 20i32, 30i32, 40i32],
            r.2@ == seq![30i32],
    {
        let n_1 = RedBlackNode { color: Color::Black, key: 10, left: None, right: None };
        proof {
            assert(n_1.ms() =~= Multiset::<i32>::empty().insert(10));
            assert(n_1.balanced() && n_1.nrr() && n_1.ordered());
            assert(n_1.bh() == 1 && n_1.count() == 1);
        }
        let n_2 = RedBlackNode { color: Color::Black, key: 40, left: None, right: None };
        proof {
            assert(n_2.ms() =~= Multiset::<i32>::empty().insert(40));
            assert(n_2.balanced() && n_2.nrr() && n_2.ordered());
            assert(n_2.bh() == 1 && n_2.count() == 1);
        }
        let n_3 = RedBlackNode { color: Color::Black, key: 20, left: Some(Box::new(n_1)), right: Some(Box::new(n_2)) };
        proof {
            assert(n_3.ms() =~= Multiset::<i32>::empty().insert(10).insert(20).insert(40));
            assert(n_3.balanced() && n_3.nrr() && n_3.ordered());
            assert(n_3.bh() == 2 && n_3.count() == 3);
        }
        let rbt = RedBlackTree { size: 3, root: Some(Box::new(n_3)) };
        proof {
            assert(rbt.wf());
        }
        let appends = vec![10, 20, 30, 40];
        let deletes = vec![30];
        proof {
            assert(appends@ =~= seq![10i32, 20i32, 30i32, 40i32]);
        }
        proof {
            assert(deletes@ =~= seq![30i32]);
        }
        (rbt, appends, deletes)
    }

    /// Deleting a childless red node.
    #[verifier::rlimit(100)]
    pub fn gen_data_for_delete_red_without_children() -> (r: (RedBlackTree, Vec<i32>, Vec<i32>))
        ensures
            r.0 == (RedBlackTree {
                size: 1,
                root: Some(Box::new(RedBlackNode {
                    color: Color::Black,
                    key: 10,
                    left: None,
                    right: None,
                })),
            }),
            r.0.wf(),
            r.1@ == seq![10i32, 20i32],
            r.2@ == seq![20i32],
    {
        let n_1 = RedBlackNode { color: Color::Black, key: 10, left: None, right: None };
        proof {
            assert(n_1.ms() =~= Multiset::<i32>::empty().insert(10));
            assert(n_1.balanced() && n_1.nrr() && n_1.ordered());
            assert(n_1.bh() == 1 && n_1.count() == 1);
        }
        let rbt = RedBlackTree { size: 1, root: Some(Box::new(n_1)) };
        proof {
            assert(rbt.wf());
        }
        let appends = vec![10, 20];
        let deletes = vec![20];
        proof {
            assert(appends@ =~= seq![10i32, 20i32]);
        }
        proof {
            assert(deletes@ =~= seq![20i32]);
        }
        (rbt, appends, deletes)
    }

    /// A deletion repaired by the left-left rotation.
    #[verifier::rlimit(100)]
    pub fn gen_data_for_delete_ll() -> (r: (RedBlackTree, Vec<i32>, Vec<i32>))
        ensures
            r.0 == (RedBlackTree {
                size: 4,
                root: Some(Box::new(RedBlackNode {
                    color: Color::Black,
                    key: 5,
                    left: Some(Box::new(RedBlackNode {
                        color: Color::Black,
                        key: 2,
                        left: None,
                        right: None,
                    })),
                    right: Some(Box::new(RedBlackNode {
                        color: Color::Black,
                        key: 7,
                        left: Some(Box::new(RedBlackNode {
                            color: Color::Red,
                            key: 6,
                            left: None,
                            right: None,
                        })),
                        right: None,
                    })),
                })),
            }),
            r.0.wf(),
            r.1@ == seq![7i32, 5i32, 8i32, 2i32, 6i32],
            r.2@ == seq![8i32],
    {
        let n_1 = RedBlackNode { color: Color::Black, key: 2, left: None, right: None };
        proof {
            assert(n_1.ms() =~= Multiset::<i32>::empty().insert(2));
            assert(n_1.balanced() && n_1.nrr() && n_1.ordered());
            assert(n_1.bh() == 1 && n_1.count() == 1);
        }
        let n_2 = RedBlackNode { color: Color::Red, key: 6, left: None, right: None };
        proof {
            assert(n_2.ms() =~= Multiset::<i32>::empty().insert(6));
            assert(n_2.balanced() && n_2.nrr() && n_2.ordered());
            assert(n_2.bh() == 0 && n_2.count() == 1);
        }
        let n_3 = RedBlackNode { color: Color::Black, key: 7, left: Some(Box::new(n_2)), right: None };
        proof {
            assert(n_3.ms() =~= Multiset::<i32>::empty().insert(6).insert(7));
            assert(n_3.balanced() && n_3.nrr() && n_3.ordered());
            assert(n_3.bh() == 1 && n_3.count() == 2);
        }
        let n_4 = RedBlackNode { color: Color::Black, key: 5, left: Some(Box::new(n_1)), right: Some(Box::new(n_3)) };
        proof {
            assert(n_4.ms() =~= Multiset::<i32>::empty().insert(2).insert(5).insert(6).insert(7));
            assert(n_4.balanced() && n_4.nrr() && n_4.ordered());
            assert(n_4.bh() == 2 && n_4.count() == 4);
        }
        let rbt = RedBlackTree { size: 4, root: Some(Box::new(n_4)) };
        proof {
            assert(rbt.wf());
        }
        let appends = vec![7, 5, 8, 2, 6];
        let deletes = vec![8];
        proof {
            assert(appends@ =~= seq![7i32, 5i32, 8i32, 2i32, 6i32]);
        }
        proof {
            assert(deletes@ =~= seq![8i32]);
        }
        (rbt, appends, deletes)
    }

    /// A deletion repaired by the right-right rotation.
    #[verifier::rlimit(100)]
    pub fn gen_data_for_delete_rr() -> (r: (RedBlackTree, Vec<i32>, Vec<i32>))
        ensures
            r.0 == (RedBlackTree {
                size: 4,
                root: Some(Box::new(RedBlackNode {
                    color: Color::Black,
                    key: 7,
                    left: Some(Box::new(RedBlackNode {
                        color: Color::Black,
                        key: 5,
                        left: None,
                        right: Some(Box::new(RedBlackNode {
                            color: Color::Red,
                            key: 6,
                            left: None,
                            right: None,
                        })),
                    })),
                    right: Some(Box::new(RedBlackNode {
                        color: Color::Black,
                        key: 12,
                        left: None,
                        right: None,
                    })),
                })),
            }),
            r.0.wf(),
            r.1@ == seq![5i32, 1i32, 7i32, 6i32, 12i32],
            r.2@ == seq![1i32],
    {
        let n_1 = RedBlackNode { color: Color::Red, key: 6, left: None, right: None };
        proof {
            assert(n_1.ms() =~= Multiset::<i32>::empty().insert(6));
            assert(n_1.balanced() && n_1.nrr() && n_1.ordered());
            assert(n_1.bh() == 0 && n_1.count() == 1);
        }
        let n_2 = RedBlackNode { color: Color::Black, key: 5, left: None, right: Some(Box::new(n_1)) };
        proof {
            assert(n_2.ms() =~= Multiset::<i32>::empty().insert(5).insert(6));
            assert(n_2.balanced() && n_2.nrr() && n_2.ordered());
            assert(n_2.bh() == 1 && n_2.count() == 2);
        }
        let n_3 = RedBlackNode { color: Color::Black, key: 12, left: None, right: None };
        proof {
            assert(n_3.ms() =~= Multiset::<i32>::empty().insert(12));
            assert(n_3.balanced() && n_3.nrr() && n_3.ordered());
            assert(n_3.bh() == 1 && n_3.count() == 1);
        }
        let n_4 = RedBlackNode { color: Color::Black, key: 7, left: Some(Box::new(n_2)), right: Some(Box::new(n_3)) };
        proof {
            assert(n_4.ms() =~= Multiset::<i32>::empty().insert(5).insert(6).insert(7).insert(12));
            assert(n_4.balanced() && n_4.nrr() && n_4.ordered());
            assert(n_4.bh() == 2 && n_4.count() == 4);
        }
        let rbt = RedBlackTree { size: 4, root: Some(Box::new(n_4)) };
        proof {
            assert(rbt.wf());
        }
        let appends = vec![5, 1, 7, 6, 12];
        let deletes = vec![1];
        proof {
            assert(appends@ =~= seq![5i32, 1i32, 7i32, 6i32, 12i32]);
        }
        proof {
            assert(deletes@ =~= seq![1i32]);
        }
        (rbt, appends, deletes)
    }

    /// A deletion repaired by the left-right double rotation.
    #[verifier::rlimit(100)]
    pub fn gen_data_for_delete_lr() -> (r: (RedBlackTree, Vec<i32>, Vec<i32>))
        ensures
            r.0 == (RedBlackTree {
                size: 3,
                root: Some(Box::new(RedBlackNode {
                    color: Color::Black,
                    key: 6,
                    left: Some(Box::new(RedBlackNode {
                        color: Color::Black,
                        key: 5,
                        left: None,
                        right: None,
                    })),
                    right: Some(Box::new(RedBlackNode {
                        color: Color::Black,
                        key: 7,
                        left: None,
                        right: None,
                    })),
                })),
            }),
            r.0.wf(),
            r.1@ == seq![7i32, 5i32, 8i32, 6i32],
            r.2@ == seq![8i32],
    {
        let n_1 = RedBlackNode { color: Color::Black, key: 5, left: None, right: None };
        proof {
            assert(n_1.ms() =~= Multiset::<i32>::empty().insert(5));
            assert(n_1.balanced() && n_1.nrr() && n_1.ordered());
            assert(n_1.bh() == 1 && n_1.count() == 1);
        }
        let n_2 = RedBlackNode { color: Color::Black, key: 7, left: None, right: None };
        proof {
            assert(n_2.ms() =~= Multiset::<i32>::empty().insert(7));
            assert(n_2.balanced() && n_2.nrr() && n_2.ordered());
            assert(n_2.bh() == 1 && n_2.count() == 1);
        }
        let n_3 = RedBlackNode { color: Color::Black, key: 6, left: Some(Box::new(n_1)), right: Some(Box::new(n_2)) };
        proof {
            assert(n_3.ms() =~= Multiset::<i32>::empty().insert(5).insert(6).insert(7));
            assert(n_3.balanced() && n_3.nrr() && n_3.ordered());
            assert(n_3.bh() == 2 && n_3.count() == 3);
        }
        let rbt = RedBlackTree { size: 3, root: Some(Box::new(n_3)) };
        proof {
            assert(rbt.wf());
        }
        let appends = vec![7, 5, 8, 6];
        let deletes = vec![8];
        proof {
            assert(appends@ =~= seq![7i32, 5i32, 8i32, 6i32]);
        }
        proof {
            assert(deletes@ =~= seq![8i32]);
        }
        (rbt, appends, deletes)
    }

    /// A deletion repaired by the right-left double rotation.
    #[verifier::rlimit(100)]
    pub fn gen_data_for_delete_rl() -> (r: (RedBlackTree, Vec<i32>, Vec<i32>))
        ensures
            r.0 == (RedBlackTree {
                size: 3,
                root: Some(Box::new(RedBlackNode {
                    color: Color::Black,
                    key: 8,
                    left: Some(Box::new(RedBlackNode {
                        color: Color::Black,
                        key: 6,
                        left: None,
                        right: None,
                    })),
                    right: Some(Box::new(RedBlackNode {
                        color: Color::Black,
                        key: 12,
                        left: None,
                        right: None,
                    })),
                })),
            }),
            r.0.wf(),
            r.1@ == seq![6i32, 5i32, 12i32, 8i32],
            r.2@ == seq![5i32],
    {
        let n_1 = RedBlackNode { color: Color::Black, key: 6, left: None, right: None };
        proof {
            assert(n_1.ms() =~= Multiset::<i32>::empty().insert(6));
            assert(n_1.balanced() && n_1.nrr() && n_1.ordered());
            assert(n_1.bh() == 1 && n_1.count() == 1);
        }
        let n_2 = RedBlackNode { color: Color::Black, key: 12, left: None, right: None };
        proof {
            assert(n_2.ms() =~= Multiset::<i32>::empty().insert(12));
            assert(n_2.balanced() && n_2.nrr() && n_2.ordered());
            assert(n_2.bh() == 1 && n_2.count() == 1);
        }
        let n_3 = RedBlackNode { color: Color::Black, key: 8, left: Some(Box::new(n_1)), right: Some(Box::new(n_2)) };
        proof {
            assert(n_3.ms() =~= Multiset::<i32>::empty().insert(6).insert(8).insert(12));
            assert(n_3.balanced() && n_3.nrr() && n_3.ordered());
            assert(n_3.bh() == 2 && n_3.count() == 3);
        }
        let rbt = RedBlackTree { size: 3, root: Some(Box::new(n_3)) };
        proof {
            assert(rbt.wf());
        }
        let appends = vec![6, 5, 12, 8];
        let deletes = vec![5];
        proof {
            assert(appends@ =~= seq![6i32, 5i32, 12i32, 8i32]);
        }
        proof {
            assert(deletes@ =~= seq![5i32]);
        }
        (rbt, appends, deletes)
    }

    /// A deletion whose sibling and its children are black under a black parent.
    #[verifier::rlimit(100)]
    pub fn gen_data_for_delete_black_sbling_and_black_children_and_black_parent() -> (r: (RedBlackTree, RedBlackTree, i32))
        ensures
            r.0 == (RedBlackTree {
                size: 9,
                root: Some(Box::new(RedBlackNode {
                    color: Color::Black,
                    key: 15,
                    left: Some(Box::new(RedBlackNode {
                        color: Color::Black,
                        key: 8,
                        left: Some(Box::new(RedBlackNode {
                            color: Color::Black,
                            key: 6,
                            left: None,
                            right: None,
                        })),
                        right: Some(Box::new(RedBlackNode {
                            color: Color::Black,
                            key: 9,
                            left: None,
                            right: None,
                        })),
                    })),
                    right: Some(Box::new(RedBlackNode {
                        color: Color::Black,
                        key: 18,
                        left: Some(Box::new(RedBlackNode {
                            color: Color::Black,
                            key: 17,
                            left: None,
                            right: None,
                        })),
                        right: Some(Box::new(RedBlackNode {
                            color: Color::Red,
                            key: 27,
                            left: Some(Box::new(RedBlackNode {
                                color: Color::Black,
                                key: 25,
                                left: None,
                                right: None,
                            })),
                            right: Some(Box::new(RedBlackNode {
                                color: Color::Black,
                                key: 34,
                                left: None,
                                right: None,
                            })),
                        })),
                    })),
                })),
            }),
            r.0.wf(),
            r.1 == (RedBlackTree {
                size: 8,
                root: Some(Box::new(RedBlackNode {
                    color: Color::Black,
                    key: 18,
                    left: Some(Box::new(RedBlackNode {
                        color: Color::Black,
                        key: 15,
                        left: Some(Box::new(RedBlackNode {
                            color: Color::Black,
                            key: 8,
                            left: Some(Box::new(RedBlackNode {
                                color: Color::Red,
                                key: 6,
                                left: None,
                                right: None,
                            })),
                            right: None,
                        })),
                        right: Some(Box::new(RedBlackNode {
                            color: Color::Black,
                            key: 17,
                            left: None,
                            right: None,
                        })),
                    })),
                    right: Some(Box::new(RedBlackNode {
                        color: Color::Black,
                        key: 27,
                        left: Some(Box::new(RedBlackNode {
                            color: Color::Black,
                            key: 25,
                            left: None,
                            right: None,
                        })),
                        right: Some(Box::new(RedBlackNode {
                            color: Color::Black,
                            key: 34,
                            left: None,
                            right: None,
                        })),
                    })),
                })),
            }),
            r.1.wf(),
            r.2 == 9,
    {
        let n_1 = RedBlackNode { color: Color::Black, key: 6, left: None, right: None };
        proof {
            assert(n_1.ms() =~= Multiset::<i32>::empty().insert(6));
            assert(n_1.balanced() && n_1.nrr() && n_1.ordered());
            assert(n_1.bh() == 1 && n_1.count() == 1);
        }
        let n_2 = RedBlackNode { color: Color::Black, key: 9, left: None, right: None };
        proof {
            assert(n_2.ms() =~= Multiset::<i32>::empty().insert(9));
            assert(n_2.balanced() && n_2.nrr() && n_2.ordered());
            assert(n_2.bh() == 1 && n_2.count() == 1);
        }
        let n_3 = RedBlackNode { color: Color::Black, key: 8, left: Some(Box::new(n_1)), right: Some(Box::new(n_2)) };
        proof {
            assert(n_3.ms() =~= Multiset::<i32>::empty().insert(6).insert(8).insert(9));
            assert(n_3.balanced() && n_3.nrr() && n_3.ordered());
            assert(n_3.bh() == 2 && n_3.count() == 3);
        }
        let n_4 = RedBlackNode { color: Color::Black, key: 17, left: None, right: None };
        proof {
            assert(n_4.ms() =~= Multiset::<i32>::empty().insert(17));
            assert(n_4.balanced() && n_4.nrr() && n_4.ordered());
            assert(n_4.bh() == 1 && n_4.count() == 1);
        }
        let n_5 = RedBlackNode { color: Color::Black, key: 25, left: None, right: None };
        proof {
            assert(n_5.ms() =~= Multiset::<i32>::empty().insert(25));
            assert(n_5.balanced() && n_5.nrr() && n_5.ordered());
            assert(n_5.bh() == 1 && n_5.count() == 1);
        }
        let n_6 = RedBlackNode { color: Color::Black, key: 34, left: None, right: None };
        proof {
            assert(n_6.ms() =~= Multiset::<i32>::empty().insert(34));
            assert(n_6.balanced() && n_6.nrr() && n_6.ordered());
            assert(n_6.bh() == 1 && n_6.count() == 1);
        }
        let n_7 = RedBlackNode { color: Color::Red, key: 27, left: Some(Box::new(n_5)), right: Some(Box::new(n_6)) };
        proof {
            assert(n_7.ms() =~= Multiset::<i32>::empty().insert(25).insert(27).insert(34));
            assert(n_7.balanced() && n_7.nrr() && n_7.ordered());
            assert(n_7.bh() == 1 && n_7.count() == 3);
        }
        let n_8 = RedBlackNode { color: Color::Black, key: 18, left: Some(Box::new(n_4)), right: Some(Box::new(n_7)) };
        proof {
            assert(n_8.ms() =~= Multiset::<i32>::empty().insert(17).insert(18).insert(25).insert(27).insert(34));
            assert(n_8.balanced() && n_8.nrr() && n_8.ordered());
            assert(n_8.bh() == 2 && n_8.count() == 5);
        }
        let n_9 = RedBlackNode { color: Color::Black, key: 15, left: Some(Box::new(n_3)), right: Some(Box::new(n_8)) };
        proof {
            assert(n_9.ms() =~= Multiset::<i32>::empty().insert(6).insert(8).insert(9).insert(15).insert(17).insert(18).insert(25).insert(27).insert(34));
            assert(n_9.balanced() && n_9.nrr() && n_9.ordered());
            assert(n_9.bh() == 3 && n_9.count() == 9);
        }
        let rbt_test = RedBlackTree { size: 9, root: Some(Box::new(n_9)) };
        proof {
            assert(rbt_test.wf());
        }
        let m_1 = RedBlackNode { color: Color::Red, key: 6, left: None, right: None };
        proof {
            assert(m_1.ms() =~= Multiset::<i32>::empty().insert(6));
            assert(m_1.balanced() && m_1.nrr() && m_1.ordered());
            assert(m_1.bh() == 0 && m_1.count() == 1);
        }
        let m_2 = RedBlackNode { color: Color::Black, key: 8, left: Some(Box::new(m_1)), right: None };
        proof {
            assert(m_2.ms() =~= Multiset::<i32>::empty().insert(6).insert(8));
            assert(m_2.balanced() && m_2.nrr() && m_2.ordered());
            assert(m_2.bh() == 1 && m_2.count() == 2);
        }
        let m_3 = RedBlackNode { color: Color::Black, key: 17, left: None, right: None };
        proof {
            assert(m_3.ms() =~= Multiset::<i32>::empty().insert(17));
            assert(m_3.balanced() && m_3.nrr() && m_3.ordered());
            assert(m_3.bh() == 1 && m_3.count() == 1);
        }
        let m_4 = RedBlackNode { color: Color::Black, key: 15, left: Some(Box::new(m_2)), right: Some(Box::new(m_3)) };
        proof {
            assert(m_4.ms() =~= Multiset::<i32>::empty().insert(6).insert(8).insert(15).insert(17));
            assert(m_4.balanced() && m_4.nrr() && m_4.ordered());
            assert(m_4.bh() == 2 && m_4.count() == 4);
        }
        let m_5 = RedBlackNode { color: Color::Black, key: 25, left: None, right: None };
        proof {
            assert(m_5.ms() =~= Multiset::<i32>::empty().insert(25));
            assert(m_5.balanced() && m_5.nrr() && m_5.ordered());
            assert(m_5.bh() == 1 && m_5.count() == 1);
        }
        let m_6 = RedBlackNode { color: Color::Black, key: 34, left: None, right: None };
        proof {
            assert(m_6.ms() =~= Multiset::<i32>::empty().insert(34));
            assert(m_6.balanced() && m_6.nrr() && m_6.ordered());
            assert(m_6.bh() == 1 && m_6.count() == 1);
        }
        let m_7 = RedBlackNode { color: Color::Black, key: 27, left: Some(Box::new(m_5)), right: Some(Box::new(m_6)) };
        proof {
            assert(m_7.ms() =~= Multiset::<i32>::empty().insert(25).insert(27).insert(34));
            assert(m_7.balanced() && m_7.nrr() && m_7.ordered());
            assert(m_7.bh() == 2 && m_7.count() == 3);
        }
        let m_8 = RedBlackNode { color: Color::Black, key: 18, left: Some(Box::new(m_4)), right: Some(Box::new(m_7)) };
        proof {
            assert(m_8.ms() =~= Multiset::<i32>::empty().insert(6).insert(8).insert(15).insert(17).insert(18).insert(25).insert(27).insert(34));
            assert(m_8.balanced() && m_8.nrr() && m_8.ordered());
            assert(m_8.bh() == 3 && m_8.count() == 8);
        }
        let rbt_standard = RedBlackTree { size: 8, root: Some(Box::new(m_8)) };
        proof {
            assert(rbt_standard.wf());
        }
        (rbt_test, rbt_standard, 9)
    }

    /// A deletion whose sibling and its children are black under a red parent.
    #[verifier::rlimit(100)]
    pub fn gen_data_for_delete_black_sbling_and_black_children_and_red_parent() -> (r: (RedBlackTree, RedBlackTree, i32))
        ensures
            r.0 == (RedBlackTree {
                size: 5,
                root: Some(Box::new(RedBlackNode {
                    color: Color::Black,
                    key: 10,
                    left: Some(Box::new(RedBlackNode {
                        color: Color::Black,
                        key: 4,
                        left: None,
                        right: None,
                    })),
                    right: Some(Box::new(RedBlackNode {
                        color: Color::Red,
                        key: 25,
                        left: Some(Box::new(RedBlackNode {
                            color: Color::Black,
                            key: 17,
                            left: None,
                            right: None,
                        })),
                        right: Some(Box::new(RedBlackNode {
                            color: Color::Black,
                            key: 28,
                            left: None,
                            right: None,
                        })),
                    })),
                })),
            }),
            r.0.wf(),
            r.1 == (RedBlackTree {
                size: 4,
                root: Some(Box::new(RedBlackNode {
                    color: Color::Black,
                    key: 10,
                    left: Some(Box::new(RedBlackNode {
                        color: Color::Black,
                        key: 4,
                        left: None,
                        right: None,
                    })),
                    right: Some(Box::new(RedBlackNode {
                        color: Color::Black,
                        key: 25,
                        left: Some(Box::new(RedBlackNode {
                            color: Color::Red,
                            key: 17,
                            left: None,
                            right: None,
                        })),
                        right: None,
                    })),
                })),
            }),
            r.1.wf(),
            r.2 == 28,
    {
        let n_1 = RedBlackNode { color: Color::Black, key: 4, left: None, right: None };
        proof {
            assert(n_1.ms() =~= Multiset::<i32>::empty().insert(4));
            assert(n_1.balanced() && n_1.nrr() && n_1.ordered());
            assert(n_1.bh() == 1 && n_1.count() == 1);
        }
        let n_2 = RedBlackNode { color: Color::Black, key: 17, left: None, right: None };
        proof {
            assert(n_2.ms() =~= Multiset::<i32>::empty().insert(17));
            assert(n_2.balanced() && n_2.nrr() && n_2.ordered());
            assert(n_2.bh() == 1 && n_2.count() == 1);
        }
        let n_3 = RedBlackNode { color: Color::Black, key: 28, left: None, right: None };
        proof {
            assert(n_3.ms() =~= Multiset::<i32>::empty().insert(28));
            assert(n_3.balanced() && n_3.nrr() && n_3.ordered());
            assert(n_3.bh() == 1 && n_3.count() == 1);
        }
        let n_4 = RedBlackNode { color: Color::Red, key: 25, left: Some(Box::new(n_2)), right: Some(Box::new(n_3)) };
        proof {
            assert(n_4.ms() =~= Multiset::<i32>::empty().insert(17).insert(25).insert(28));
            assert(n_4.balanced() && n_4.nrr() && n_4.ordered());
            assert(n_4.bh() == 1 && n_4.count() == 3);
        }
        let n_5 = RedBlackNode { color: Color::Black, key: 10, left: Some(Box::new(n_1)), right: Some(Box::new(n_4)) };
        proof {
            assert(n_5.ms() =~= Multiset::<i32>::empty().insert(4).insert(10).insert(17).insert(25).insert(28));
            assert(n_5.balanced() && n_5.nrr() && n_5.ordered());
            assert(n_5.bh() == 2 && n_5.count() == 5);
        }
        let rbt_test = RedBlackTree { size: 5, root: Some(Box::new(n_5)) };
        proof {
            assert(rbt_test.wf());
        }
        let m_1 = RedBlackNode { color: Color::Black, key: 4, left: None, right: None };
        proof {
            assert(m_1.ms() =~= Multiset::<i32>::empty().insert(4));
            assert(m_1.balanced() && m_1.nrr() && m_1.ordered());
            assert(m_1.bh() == 1 && m_1.count() == 1);
        }
        let m_2 = RedBlackNode { color: Color::Red, key: 17, left: None, right: None };
        proof {
            assert(m_2.ms() =~= Multiset::<i32>::empty().insert(17));
            assert(m_2.balanced() && m_2.nrr() && m_2.ordered());
            assert(m_2.bh() == 0 && m_2.count() == 1);
        }
        let m_3 = RedBlackNode { color: Color::Black, key: 25, left: Some(Box::new(m_2)), right: None };
        proof {
            assert(m_3.ms() =~= Multiset::<i32>::empty().insert(17).insert(25));
            assert(m_3.balanced() && m_3.nrr() && m_3.ordered());
            assert(m_3.bh() == 1 && m_3.count() == 2);
        }
        let m_4 = RedBlackNode { color: Color::Black, key: 10, left: Some(Box::new(m_1)), right: Some(Box::new(m_3)) };
        proof {
            assert(m_4.ms() =~= Multiset::<i32>::empty().insert(4).insert(10).insert(17).insert(25));
            assert(m_4.balanced() && m_4.nrr() && m_4.ordered());
            assert(m_4.bh() == 2 && m_4.count() == 4);
        }
        let rbt_standard = RedBlackTree { size: 4, root: Some(Box::new(m_4)) };
        proof {
            assert(rbt_standard.wf());
        }
        (rbt_test, rbt_standard, 28)
    }

    /// A deletion whose black deficiency reaches the root.
    #[verifier::rlimit(100)]
    pub fn gen_data_for_delete_black_sbling_and_black_children_and_root_parent() -> (r: (RedBlackTree, RedBlackTree, i32))
        ensures
            r.0 == (RedBlackTree {
                size: 3,
                root: Some(Box::new(RedBlackNode {
                    color: Color::Black,
                    key: 10,
                    left: Some(Box::new(RedBlackNode {
                        color: Color::Black,
                        key: 4,
                        left: None,
                        right: None,
                    })),
                    right: Some(Box::new(RedBlackNode {
                        color: Color::Black,
                        key: 25,
                        left: None,
                        right: None,
                    })),
                })),
            }),
            r.0.wf(),
            r.1 == (RedBlackTree {
                size: 2,
                root: Some(Box::new(RedBlackNode {
                    color: Color::Black,
                    key: 10,
                    left: Some(Box::new(RedBlackNode {
                        color: Color::Red,
                        key: 4,
                        left: None,
                        right: None,
                    })),
                    right: None,
                })),
            }),
            r.1.wf(),
            r.2 == 25,
    {
        let n_1 = RedBlackNode { color: Color::Black, key: 4, left: None, right: None };
        proof {
            assert(n_1.ms() =~= Multiset::<i32>::empty().insert(4));
            assert(n_1.balanced() && n_1.nrr() && n_1.ordered());
            assert(n_1.bh() == 1 && n_1.count() == 1);
        }
        let n_2 = RedBlackNode { color: Color::Black, key: 25, left: None, right: None };
        proof {
            assert(n_2.ms() =~= Multiset::<i32>::empty().insert(25));
            assert(n_2.balanced() && n_2.nrr() && n_2.ordered());
            assert(n_2.bh() == 1 && n_2.count() == 1);
        }
        let n_3 = RedBlackNode { color: Color::Black, key: 10, left: Some(Box::new(n_1)), right: Some(Box::new(n_2)) };
        proof {
            assert(n_3.ms() =~= Multiset::<i32>::empty().insert(4).insert(10).insert(25));
            assert(n_3.balanced() && n_3.nrr() && n_3.ordered());
            assert(n_3.bh() == 2 && n_3.count() == 3);
        }
        let rbt_test = RedBlackTree { size: 3, root: Some(Box::new(n_3)) };
        proof {
            assert(rbt_test.wf());
        }
        let m_1 = RedBlackNode { color: Color::Red, key: 4, left: None, right: None };
        proof {
            assert(m_1.ms() =~= Multiset::<i32>::empty().insert(4));
            assert(m_1.balanced() && m_1.nrr() && m_1.ordered());
            assert(m_1.bh() == 0 && m_1.count() == 1);
        }
        let m_2 = RedBlackNode { color: Color::Black, key: 10, left: Some(Box::new(m_1)), right: None };
        proof {
            assert(m_2.ms() =~= Multiset::<i32>::empty().insert(4).insert(10));
            assert(m_2.balanced() && m_2.nrr() && m_2.ordered());
            assert(m_2.bh() == 1 && m_2.count() == 2);
        }
        let rbt_standard = RedBlackTree { size: 2, root: Some(Box::new(m_2)) };
        proof {
            assert(rbt_standard.wf());
        }
        (rbt_test, rbt_standard, 25)
    }

    /// A deletion whose sibling is red.
    #[verifier::rlimit(100)]
    pub fn gen_data_for_delete_red_sbling() -> (r: (RedBlackTree, RedBlackTree, i32))
        ensures
            r.0 == (RedBlackTree {
                size: 5,
                root: Some(Box::new(RedBlackNode {
                    color: Color::Black,
                    key: 18,
                    left: Some(Box::new(RedBlackNode {
                        color: Color::Red,
                        key: 15,
                        left: Some(Box::new(RedBlackNode {
                            color: Color::Black,
                            key: 9,
                            left: None,
                            right: None,
                        })),
                        right: Some(Box::new(RedBlackNode {
                            color: Color::Black,
                            key: 17,
                            left: None,
                            right: None,
                        })),
                    })),
                    right: Some(Box::new(RedBlackNode {
                        color: Color::Black,
                        key: 21,
                        left: None,
                        right: None,
                    })),
                })),
            }),
            r.0.wf(),
            r.1 == (RedBlackTree {
                size: 4,
                root: Some(Box::new(RedBlackNode {
                    color: Color::Black,
                    key: 15,
                    left: Some(Box::new(RedBlackNode {
                        color: Color::Black,
                        key: 9,
                        left: None,
                        right: None,
                    })),
                    right: Some(Box::new(RedBlackNode {
                        color: Color::Black,
                        key: 18,
                        left: Some(Box::new(RedBlackNode {
                            color: Color::Red,
                            key: 17,
                            left: None,
                            right: None,
                        })),
                        right: None,
                    })),
                })),
            }),
            r.1.wf(),
            r.2 == 21,
    {
        let n_1 = RedBlackNode { color: Color::Black, key: 9, left: None, right: None };
        proof {
            assert(n_1.ms() =~= Multiset::<i32>::empty().insert(9));
            assert(n_1.balanced() && n_1.nrr() && n_1.ordered());
            assert(n_1.bh() == 1 && n_1.count() == 1);
        }
        let n_2 = RedBlackNode { color: Color::Black, key: 17, left: None, right: None };
        proof {
            assert(n_2.ms() =~= Multiset::<i32>::empty().insert(17));
            assert(n_2.balanced() && n_2.nrr() && n_2.ordered());
            assert(n_2.bh() == 1 && n_2.count() == 1);
        }
        let n_3 = RedBlackNode { color: Color::Red, key: 15, left: Some(Box::new(n_1)), right: Some(Box::new(n_2)) };
        proof {
            assert(n_3.ms() =~= Multiset::<i32>::empty().insert(9).insert(15).insert(17));
            assert(n_3.balanced() && n_3.nrr() && n_3.ordered());
            assert(n_3.bh() == 1 && n_3.count() == 3);
        }
        let n_4 = RedBlackNode { color: Color::Black, key: 21, left: None, right: None };
        proof {
            assert(n_4.ms() =~= Multiset::<i32>::empty().insert(21));
            assert(n_4.balanced() && n_4.nrr() && n_4.ordered());
            assert(n_4.bh() == 1 && n_4.count() == 1);
        }
        let n_5 = RedBlackNode { color: Color::Black, key: 18, left: Some(Box::new(n_3)), right: Some(Box::new(n_4)) };
        proof {
            assert(n_5.ms() =~= Multiset::<i32>::empty().insert(9).insert(15).insert(17).insert(18).insert(21));
            assert(n_5.balanced() && n_5.nrr() && n_5.ordered());
            assert(n_5.bh() == 2 && n_5.count() == 5);
        }
        let rbt_test = RedBlackTree { size: 5, root: Some(Box::new(n_5)) };
        proof {
            assert(rbt_test.wf());
        }
        let m_1 = RedBlackNode { color: Color::Black, key: 9, left: None, right: None };
        proof {
            assert(m_1.ms() =~= Multiset::<i32>::empty().insert(9));
            assert(m_1.balanced() && m_1.nrr() && m_1.ordered());
            assert(m_1.bh() == 1 && m_1.count() == 1);
        }
        let m_2 = RedBlackNode { color: Color::Red, key: 17, left: None, right: None };
        proof {
            assert(m_2.ms() =~= Multiset::<i32>::empty().insert(17));
            assert(m_2.balanced() && m_2.nrr() && m_2.ordered());
            assert(m_2.bh() == 0 && m_2.count() == 1);
        }
        let m_3 = RedBlackNode { color: Color::Black, key: 18, left: Some(Box::new(m_2)), right: None };
        proof {
            assert(m_3.ms() =~= Multiset::<i32>::empty().insert(17).insert(18));
            assert(m_3.balanced() && m_3.nrr() && m_3.ordered());
            assert(m_3.bh() == 1 && m_3.count() == 2);
        }
        let m_4 = RedBlackNode { color: Color::Black, key: 15, left: Some(Box::new(m_1)), right: Some(Box::new(m_3)) };
        proof {
            assert(m_4.ms() =~= Multiset::<i32>::empty().insert(9).insert(15).insert(17).insert(18));
            assert(m_4.balanced() && m_4.nrr() && m_4.ordered());
            assert(m_4.bh() == 2 && m_4.count() == 4);
        }
        let rbt_standard = RedBlackTree { size: 4, root: Some(Box::new(m_4)) };
        proof {
            assert(rbt_standard.wf());
        }
        (rbt_test, rbt_standard, 21)
    }

    /// A long deletion sequence with the expected tree after each step.
    #[verifier::rlimit(100)]
    pub fn gen_data_for_delete() -> (r: (RedBlackTree, Vec<RedBlackTree>, Vec<i32>))
        ensures
            r.0 == (RedBlackTree {
                size: 12,
                root: Some(Box::new(RedBlackNode {
                    color: Color::Black,
                    key: 15,
                    left: Some(Box::new(RedBlackNode {
                        color: Color::Black,
                        key: 9,
                        left: Some(Box::new(RedBlackNode {
                            color: Color::Black,
                            key: 6,
                            left: None,
                            right: None,
                        })),
                        right: Some(Box::new(RedBlackNode {
                            color: Color::Black,
                            key: 13,
                            left: Some(Box::new(RedBlackNode {
                                color: Color::Red,
                                key: 10,
                                left: None,
                                right: None,
                            })),
                            right: None,
                        })),
                    })),
                    right: Some(Box::new(RedBlackNode {
                        color: Color::Black,
                        key: 18,
                        left: Some(Box::new(RedBlackNode {
                            color: Color::Black,
                            key: 17,
                            left: None,
                            right: None,
                        })),
                        right: Some(Box::new(RedBlackNode {
                            color: Color::Red,
                            key: 27,
                            left: Some(Box::new(RedBlackNode {
                                color: Color::Black,
                                key: 23,
                                left: None,
                                right: Some(Box::new(RedBlackNode {
                                    color: Color::Red,
                                    key: 25,
                                    left: None,
                                    right: None,
                                })),
                            })),
                            right: Some(Box::new(RedBlackNode {
                                color: Color::Black,
                                key: 34,
                                left: None,
                                right: Some(Box::new(RedBlackNode {
                                    color: Color::Red,
                                    key: 37,
                                    left: None,
                                    right: None,
                                })),
                            })),
                        })),
                    })),
                })),
            }),
            r.0.wf(),
            r.1@.len() == 12,
            r.1@[0] == (RedBlackTree {
                size: 11,
                root: Some(Box::new(RedBlackNode {
                    color: Color::Black,
                    key: 15,
                    left: Some(Box::new(RedBlackNode {
                        color: Color::Black,
                        key: 9,
                        left: Some(Box::new(RedBlackNode {
                            color: Color::Black,
                            key: 6,
                            left: None,
                            right: None,
                        })),
                        right: Some(Box::new(RedBlackNode {
                            color: Color::Black,
                            key: 13,
                            left: Some(Box::new(RedBlackNode {
                                color: Color::Red,
                                key: 10,
                                left: None,
                                right: None,
                            })),
                            right: None,
                        })),
                    })),
                    right: Some(Box::new(RedBlackNode {
                        color: Color::Black,
                        key: 23,
                        left: Some(Box::new(RedBlackNode {
                            color: Color::Black,
                            key: 17,
                            left: None,
                            right: None,
                        })),
                        right: Some(Box::new(RedBlackNode {
                            color: Color::Red,
                            key: 27,
                            left: Some(Box::new(RedBlackNode {
                                color: Color::Black,
                                key: 25,
                                left: None,
                                right: None,
                            })),
                            right: Some(Box::new(RedBlackNode {
                                color: Color::Black,
                                key: 34,
                                left: None,
                                right: Some(Box::new(RedBlackNode {
                                    color: Color::Red,
                                    key: 37,
                                    left: None,
                                    right: None,
                                })),
                            })),
                        })),
                    })),
                })),
            }),
            r.1@[1] == (RedBlackTree {
                size: 10,
                root: Some(Box::new(RedBlackNode {
                    color: Color::Black,
                    key: 15,
                    left: Some(Box::new(RedBlackNode {
                        color: Color::Black,
                        key: 9,
                        left: Some(Box::new(RedBlackNode {
                            color: Color::Black,
                            key: 6,
                            left: None,
                            right: None,
                        })),
                        right: Some(Box::new(RedBlackNode {
                            color: Color::Black,
                            key: 13,
                            left: Some(Box::new(RedBlackNode {
                                color: Color::Red,
                                key: 10,
                                left: None,
                                right: None,
                            })),
                            right: None,
                        })),
                    })),
                    right: Some(Box::new(RedBlackNode {
                        color: Color::Black,
                        key: 23,
                        left: Some(Box::new(RedBlackNode {
                            color: Color::Black,
                            key: 17,
                            left: None,
                            right: None,
                        })),
                        right: Some(Box::new(RedBlackNode {
                            color: Color::Red,
                            key: 34,
                            left: Some(Box::new(RedBlackNode {
                                color: Color::Black,
                                key: 27,
                                left: None,
                                right: None,
                            })),
                            right: Some(Box::new(RedBlackNode {
                                color: Color::Black,
                                key: 37,
                                left: None,
                                right: None,
                            })),
                        })),
                    })),
                })),
            }),
            r.1@[2] == (RedBlackTree {
                size: 9,
                root: Some(Box::new(RedBlackNode {
                    color: Color::Black,
                    key: 17,
                    left: Some(Box::new(RedBlackNode {
                        color: Color::Black,
                        key: 9,
                        left: Some(Box::new(RedBlackNode {
                            color: Color::Black,
                            key: 6,
                            left: None,
                            right: None,
                        })),
                        right: Some(Box::new(RedBlackNode {
                            color: Color::Black,
                            key: 13,
                            left: Some(Box::new(RedBlackNode {
                                color: Color::Red,
                                key: 10,
                                left: None,
                                right: None,
                            })),
                            right: None,
                        })),
                    })),
                    right: Some(Box::new(RedBlackNode {
                        color: Color::Black,
                        key: 34,
                        left: Some(Box::new(RedBlackNode {
                            color: Color::Black,
                            key: 23,
                            left: None,
                            right: Some(Box::new(RedBlackNode {
                                color: Color::Red,
                                key: 27,
                                left: None,
                                right: None,
                            })),
                        })),
                        right: Some(Box::new(RedBlackNode {
                            color: Color::Black,
                            key: 37,
                            left: None,
                            right: None,
                        })),
                    })),
                })),
            }),
            r.1@[3] == (RedBlackTree {
                size: 8,
                root: Some(Box::new(RedBlackNode {
                    color: Color::Black,
                    key: 17,
                    left: Some(Box::new(RedBlackNode {
                        color: Color::Black,
                        key: 10,
                        left: Some(Box::new(RedBlackNode {
                            color: Color::Black,
                            key: 9,
                            left: None,
                            right: None,
                        })),
                        right: Some(Box::new(RedBlackNode {
                            color: Color::Black,
                            key: 13,
                            left: None,
                            right: None,
                        })),
                    })),
                    right: Some(Box::new(RedBlackNode {
                        color: Color::Black,
                        key: 34,
                        left: Some(Box::new(RedBlackNode {
                            color: Color::Black,
                            key: 23,
                            left: None,
                            right: Some(Box::new(RedBlackNode {
                                color: Color::Red,
                                key: 27,
                                left: None,
                                right: None,
                            })),
                        })),
                        right: Some(Box::new(RedBlackNode {
                            color: Color::Black,
                            key: 37,
                            left: None,
                            right: None,
                        })),
                    })),
                })),
            }),
            r.1@[4] == (RedBlackTree {
                size: 7,
                root: Some(Box::new(RedBlackNode {
                    color: Color::Black,
                    key: 17,
                    left: Some(Box::new(RedBlackNode {
                        color: Color::Black,
                        key: 10,
                        left: Some(Box::new(RedBlackNode {
                            color: Color::Red,
                            key: 9,
                            left: None,
                            right: None,
                        })),
                        right: None,
                    })),
                    right: Some(Box::new(RedBlackNode {
                        color: Color::Red,
                        key: 34,
                        left: Some(Box::new(RedBlackNode {
                            color: Color::Black,
                            key: 23,
                            left: None,
                            right: Some(Box::new(RedBlackNode {
                                color: Color::Red,
                                key: 27,
                                left: None,
                                right: None,
                            })),
                        })),
                        right: Some(Box::new(RedBlackNode {
                            color: Color::Black,
                            key: 37,
                            left: None,
                            right: None,
                        })),
                    })),
                })),
            }),
            r.1@[5] == (RedBlackTree {
                size: 6,
                root: Some(Box::new(RedBlackNode {
                    color: Color::Black,
                    key: 17,
                    left: Some(Box::new(RedBlackNode {
                        color: Color::Black,
                        key: 10,
                        left: Some(Box::new(RedBlackNode {
                            color: Color::Red,
                            key: 9,
                            left: None,
                            right: None,
                        })),
                        right: None,
                    })),
                    right: Some(Box::new(RedBlackNode {
                        color: Color::Red,
                        key: 27,
                        left: Some(Box::new(RedBlackNode {
                            color: Color::Black,
                            key: 23,
                            left: None,
                            right: None,
                        })),
                        right: Some(Box::new(RedBlackNode {
                            color: Color::Black,
                            key: 34,
                            left: None,
                            right: None,
                        })),
                    })),
                })),
            }),
            r.1@[6] == (RedBlackTree {
                size: 5,
                root: Some(Box::new(RedBlackNode {
                    color: Color::Black,
                    key: 17,
                    left: Some(Box::new(RedBlackNode {
                        color: Color::Black,
                        key: 10,
                        left: Some(Box::new(RedBlackNode {
                            color: Color::Red,
                            key: 9,
                            left: None,
                            right: None,
                        })),
                        right: None,
                    })),
                    right: Some(Box::new(RedBlackNode {
                        color: Color::Black,
                        key: 34,
                        left: Some(Box::new(RedBlackNode {
                            color: Color::Red,
                            key: 23,
                            left: None,
                            right: None,
                        })),
                        right: None,
                    })),
                })),
            }),
            r.1@[7] == (RedBlackTree {
                size: 4,
                root: Some(Box::new(RedBlackNode {
                    color: Color::Black,
                    key: 23,
                    left: Some(Box::new(RedBlackNode {
                        color: Color::Black,
                        key: 10,
                        left: Some(Box::new(RedBlackNode {
                            color: Color::Red,
                            key: 9,
                            left: None,
                            right: None,
                        })),
                        right: None,
                    })),
                    right: Some(Box::new(RedBlackNode {
                        color: Color::Black,
                        key: 34,
                        left: None,
                        right: None,
                    })),
                })),
            }),
            r.1@[8] == (RedBlackTree {
                size: 3,
                root: Some(Box::new(RedBlackNode {
                    color: Color::Black,
                    key: 10,
                    left: Some(Box::new(RedBlackNode {
                        color: Color::Black,
                        key: 9,
                        left: None,
                        right: None,
                    })),
                    right: Some(Box::new(RedBlackNode {
                        color: Color::Black,
                        key: 23,
                        left: None,
                        right: None,
                    })),
                })),
            }),
            r.1@[9] == (RedBlackTree {
                size: 2,
                root: Some(Box::new(RedBlackNode {
                    color: Color::Black,
                    key: 10,
                    left: None,
                    right: Some(Box::new(RedBlackNode {
                        color: Color::Red,
                        key: 23,
                        left: None,
                        right: None,
                    })),
                })),
            }),
            r.1@[10] == (RedBlackTree {
                size: 1,
                root: Some(Box::new(RedBlackNode {
                    color: Color::Black,
                    key: 23,
                    left: None,
                    right: None,
                })),
            }),
            r.1@[11] == (RedBlackTree { size: 0, root: None }),
            forall|i: int| 0 <= i < r.1@.len() ==> #[trigger] r.1@[i].wf(),
            r.2@ == seq![18i32, 25i32, 15i32, 6i32, 13i32, 37i32, 27i32, 17i32, 34i32, 9i32, 10i32, 23i32],
    {
        let n_1 = RedBlackNode { color: Color::Black, key: 6, left: None, right: None };
        proof {
            assert(n_1.ms() =~= Multiset::<i32>::empty().insert(6));
            assert(n_1.balanced() && n_1.nrr() && n_1.ordered());
            assert(n_1.bh() == 1 && n_1.count() == 1);
        }
        let n_2 = RedBlackNode { color: Color::Red, key: 10, left: None, right: None };
        proof {
            assert(n_2.ms() =~= Multiset::<i32>::empty().insert(10));
            assert(n_2.balanced() && n_2.nrr() && n_2.ordered());
            assert(n_2.bh() == 0 && n_2.count() == 1);
        }
        let n_3 = RedBlackNode { color: Color::Black, key: 13, left: Some(Box::new(n_2)), right: None };
        proof {
            assert(n_3.ms() =~= Multiset::<i32>::empty().insert(10).insert(13));
            assert(n_3.balanced() && n_3.nrr() && n_3.ordered());
            assert(n_3.bh() == 1 && n_3.count() == 2);
        }
        let n_4 = RedBlackNode { color: Color::Black, key: 9, left: Some(Box::new(n_1)), right: Some(Box::new(n_3)) };
        proof {
            assert(n_4.ms() =~= Multiset::<i32>::empty().insert(6).insert(9).insert(10).insert(13));
            assert(n_4.balanced() && n_4.nrr() && n_4.ordered());
            assert(n_4.bh() == 2 && n_4.count() == 4);
        }
        let n_5 = RedBlackNode { color: Color::Black, key: 17, left: None, right: None };
        proof {
            assert(n_5.ms() =~= Multiset::<i32>::empty().insert(17));
            assert(n_5.balanced() && n_5.nrr() && n_5.ordered());
            assert(n_5.bh() == 1 && n_5.count() == 1);
        }
        let n_6 = RedBlackNode { color: Color::Red, key: 25, left: None, right: None };
        proof {
            assert(n_6.ms() =~= Multiset::<i32>::empty().insert(25));
            assert(n_6.balanced() && n_6.nrr() && n_6.ordered());
            assert(n_6.bh() == 0 && n_6.count() == 1);
        }
        let n_7 = RedBlackNode { color: Color::Black, key: 23, left: None, right: Some(Box::new(n_6)) };
        proof {
            assert(n_7.ms() =~= Multiset::<i32>::empty().insert(23).insert(25));
            assert(n_7.balanced() && n_7.nrr() && n_7.ordered());
            assert(n_7.bh() == 1 && n_7.count() == 2);
        }
        let n_8 = RedBlackNode { color: Color::Red, key: 37, left: None, right: None };
        proof {
            assert(n_8.ms() =~= Multiset::<i32>::empty().insert(37));
            assert(n_8.balanced() && n_8.nrr() && n_8.ordered());
            assert(n_8.bh() == 0 && n_8.count() == 1);
        }
        let n_9 = RedBlackNode { color: Color::Black, key: 34, left: None, right: Some(Box::new(n_8)) };
        proof {
            assert(n_9.ms() =~= Multiset::<i32>::empty().insert(34).insert(37));
            assert(n_9.balanced() && n_9.nrr() && n_9.ordered());
            assert(n_9.bh() == 1 && n_9.count() == 2);
        }
        let n_10 = RedBlackNode { color: Color::Red, key: 27, left: Some(Box::new(n_7)), right: Some(Box::new(n_9)) };
        proof {
            assert(n_10.ms() =~= Multiset::<i32>::empty().insert(23).insert(25).insert(27).insert(34).insert(37));
            assert(n_10.balanced() && n_10.nrr() && n_10.ordered());
            assert(n_10.bh() == 1 && n_10.count() == 5);
        }
        let n_11 = RedBlackNode { color: Color::Black, key: 18, left: Some(Box::new(n_5)), right: Some(Box::new(n_10)) };
        proof {
            assert(n_11.ms() =~= Multiset::<i32>::empty().insert(17).insert(18).insert(23).insert(25).insert(27).insert(34).insert(37));
            assert(n_11.balanced() && n_11.nrr() && n_11.ordered());
            assert(n_11.bh() == 2 && n_11.count() == 7);
        }
        let n_12 = RedBlackNode { color: Color::Black, key: 15, left: Some(Box::new(n_4)), right: Some(Box::new(n_11)) };
        proof {
            assert(n_12.ms() =~= Multiset::<i32>::empty().insert(6).insert(9).insert(10).insert(13).insert(15).insert(17).insert(18).insert(23).insert(25).insert(27).insert(34).insert(37));
            assert(n_12.balanced() && n_12.nrr() && n_12.ordered());
            assert(n_12.bh() == 3 && n_12.count() == 12);
        }
        let rbt_test = RedBlackTree { size: 12, root: Some(Box::new(n_12)) };
        proof {
            assert(rbt_test.wf());
        }
        let mut rbts: Vec<RedBlackTree> = Vec::new();
        let s0_1 = RedBlackNode { color: Color::Black, key: 6, left: None, right: None };
        proof {
            assert(s0_1.ms() =~= Multiset::<i32>::empty().insert(6));
            assert(s0_1.balanced() && s0_1.nrr() && s0_1.ordered());
            assert(s0_1.bh() == 1 && s0_1.count() == 1);
        }
        let s0_2 = RedBlackNode { color: Color::Red, key: 10, left: None, right: None };
        proof {
            assert(s0_2.ms() =~= Multiset::<i32>::empty().insert(10));
            assert(s0_2.balanced() && s0_2.nrr() && s0_2.ordered());
            assert(s0_2.bh() == 0 && s0_2.count() == 1);
        }
        let s0_3 = RedBlackNode { color: Color::Black, key: 13, left: Some(Box::new(s0_2)), right: None };
        proof {
            assert(s0_3.ms() =~= Multiset::<i32>::empty().insert(10).insert(13));
            assert(s0_3.balanced() && s0_3.nrr() && s0_3.ordered());
            assert(s0_3.bh() == 1 && s0_3.count() == 2);
        }
        let s0_4 = RedBlackNode { color: Color::Black, key: 9, left: Some(Box::new(s0_1)), right: Some(Box::new(s0_3)) };
        proof {
            assert(s0_4.ms() =~= Multiset::<i32>::empty().insert(6).insert(9).insert(10).insert(13));
            assert(s0_4.balanced() && s0_4.nrr() && s0_4.ordered());
            assert(s0_4.bh() == 2 && s0_4.count() == 4);
        }
        let s0_5 = RedBlackNode { color: Color::Black, key: 17, left: None, right: None };
        proof {
            assert(s0_5.ms() =~= Multiset::<i32>::empty().insert(17));
            assert(s0_5.balanced() && s0_5.nrr() && s0_5.ordered());
            assert(s0_5.bh() == 1 && s0_5.count() == 1);
        }
        let s0_6 = RedBlackNode { color: Color::Black, key: 25, left: None, right: None };
        proof {
            assert(s0_6.ms() =~= Multiset::<i32>::empty().insert(25));
            assert(s0_6.balanced() && s0_6.nrr() && s0_6.ordered());
            assert(s0_6.bh() == 1 && s0_6.count() == 1);
        }
        let s0_7 = RedBlackNode { color: Color::Red, key: 37, left: None, right: None };
        proof {
            assert(s0_7.ms() =~= Multiset::<i32>::empty().insert(37));
            assert(s0_7.balanced() && s0_7.nrr() && s0_7.ordered());
            assert(s0_7.bh() == 0 && s0_7.count() == 1);
        }
        let s0_8 = RedBlackNode { color: Color::Black, key: 34, left: None, right: Some(Box::new(s0_7)) };
        proof {
            assert(s0_8.ms() =~= Multiset::<i32>::empty().insert(34).insert(37));
            assert(s0_8.balanced() && s0_8.nrr() && s0_8.ordered());
            assert(s0_8.bh() == 1 && s0_8.count() == 2);
        }
        let s0_9 = RedBlackNode { color: Color::Red, key: 27, left: Some(Box::new(s0_6)), right: Some(Box::new(s0_8)) };
        proof {
            assert(s0_9.ms() =~= Multiset::<i32>::empty().insert(25).insert(27).insert(34).insert(37));
            assert(s0_9.balanced() && s0_9.nrr() && s0_9.ordered());
            assert(s0_9.bh() == 1 && s0_9.count() == 4);
        }
        let s0_10 = RedBlackNode { color: Color::Black, key: 23, left: Some(Box::new(s0_5)), right: Some(Box::new(s0_9)) };
        proof {
            assert(s0_10.ms() =~= Multiset::<i32>::empty().insert(17).insert(23).insert(25).insert(27).insert(34).insert(37));
            assert(s0_10.balanced() && s0_10.nrr() && s0_10.ordered());
            assert(s0_10.bh() == 2 && s0_10.count() == 6);
        }
        let s0_11 = RedBlackNode { color: Color::Black, key: 15, left: Some(Box::new(s0_4)), right: Some(Box::new(s0_10)) };
        proof {
            assert(s0_11.ms() =~= Multiset::<i32>::empty().insert(6).insert(9).insert(10).insert(13).insert(15).insert(17).insert(23).insert(25).insert(27).insert(34).insert(37));
            assert(s0_11.balanced() && s0_11.nrr() && s0_11.ordered());
            assert(s0_11.bh() == 3 && s0_11.count() == 11);
        }
        let t0 = RedBlackTree { size: 11, root: Some(Box::new(s0_11)) };
        proof {
            assert(t0.wf());
        }
        rbts.push(t0);
        let s1_1 = RedBlackNode { color: Color::Black, key: 6, left: None, right: None };
        proof {
            assert(s1_1.ms() =~= Multiset::<i32>::empty().insert(6));
            assert(s1_1.balanced() && s1_1.nrr() && s1_1.ordered());
            assert(s1_1.bh() == 1 && s1_1.count() == 1);
        }
        let s1_2 = RedBlackNode { color: Color::Red, key: 10, left: None, right: None };
        proof {
            assert(s1_2.ms() =~= Multiset::<i32>::empty().insert(10));
            assert(s1_2.balanced() && s1_2.nrr() && s1_2.ordered());
            assert(s1_2.bh() == 0 && s1_2.count() == 1);
        }
        let s1_3 = RedBlackNode { color: Color::Black, key: 13, left: Some(Box::new(s1_2)), right: None };
        proof {
            assert(s1_3.ms() =~= Multiset::<i32>::empty().insert(10).insert(13));
            assert(s1_3.balanced() && s1_3.nrr() && s1_3.ordered());
            assert(s1_3.bh() == 1 && s1_3.count() == 2);
        }
        let s1_4 = RedBlackNode { color: Color::Black, key: 9, left: Some(Box::new(s1_1)), right: Some(Box::new(s1_3)) };
        proof {
            assert(s1_4.ms() =~= Multiset::<i32>::empty().insert(6).insert(9).insert(10).insert(13));
            assert(s1_4.balanced() && s1_4.nrr() && s1_4.ordered());
            assert(s1_4.bh() == 2 && s1_4.count() == 4);
        }
        let s1_5 = RedBlackNode { color: Color::Black, key: 17, left: None, right: None };
        proof {
            assert(s1_5.ms() =~= Multiset::<i32>::empty().insert(17));
            assert(s1_5.balanced() && s1_5.nrr() && s1_5.ordered());
            assert(s1_5.bh() == 1 && s1_5.count() == 1);
        }
        let s1_6 = RedBlackNode { color: Color::Black, key: 27, left: None, right: None };
        proof {
            assert(s1_6.ms() =~= Multiset::<i32>::empty().insert(27));
            assert(s1_6.balanced() && s1_6.nrr() && s1_6.ordered());
            assert(s1_6.bh() == 1 && s1_6.count() == 1);
        }
        let s1_7 = RedBlackNode { color: Color::Black, key: 37, left: None, right: None };
        proof {
            assert(s1_7.ms() =~= Multiset::<i32>::empty().insert(37));
            assert(s1_7.balanced() && s1_7.nrr() && s1_7.ordered());
            assert(s1_7.bh() == 1 && s1_7.count() == 1);
        }
        let s1_8 = RedBlackNode { color: Color::Red, key: 34, left: Some(Box::new(s1_6)), right: Some(Box::new(s1_7)) };
        proof {
            assert(s1_8.ms() =~= Multiset::<i32>::empty().insert(27).insert(34).insert(37));
            assert(s1_8.balanced() && s1_8.nrr() && s1_8.ordered());
            assert(s1_8.bh() == 1 && s1_8.count() == 3);
        }
        let s1_9 = RedBlackNode { color: Color::Black, key: 23, left: Some(Box::new(s1_5)), right: Some(Box::new(s1_8)) };
        proof {
            assert(s1_9.ms() =~= Multiset::<i32>::empty().insert(17).insert(23).insert(27).insert(34).insert(37));
            assert(s1_9.balanced() && s1_9.nrr() && s1_9.ordered());
            assert(s1_9.bh() == 2 && s1_9.count() == 5);
        }
        let s1_10 = RedBlackNode { color: Color::Black, key: 15, left: Some(Box::new(s1_4)), right: Some(Box::new(s1_9)) };
        proof {
            assert(s1_10.ms() =~= Multiset::<i32>::empty().insert(6).insert(9).insert(10).insert(13).insert(15).insert(17).insert(23).insert(27).insert(34).insert(37));
            assert(s1_10.balanced() && s1_10.nrr() && s1_10.ordered());
            assert(s1_10.bh() == 3 && s1_10.count() == 10);
        }
        let t1 = RedBlackTree { size: 10, root: Some(Box::new(s1_10)) };
        proof {
            assert(t1.wf());
        }
        rbts.push(t1);
        let s2_1 = RedBlackNode { color: Color::Black, key: 6, left: None, right: None };
        proof {
            assert(s2_1.ms() =~= Multiset::<i32>::empty().insert(6));
            assert(s2_1.balanced() && s2_1.nrr() && s2_1.ordered());
            assert(s2_1.bh() == 1 && s2_1.count() == 1);
        }
        let s2_2 = RedBlackNode { color: Color::Red, key: 10, left: None, right: None };
        proof {
            assert(s2_2.ms() =~= Multiset::<i32>::empty().insert(10));
            assert(s2_2.balanced() && s2_2.nrr() && s2_2.ordered());
            assert(s2_2.bh() == 0 && s2_2.count() == 1);
        }
        let s2_3 = RedBlackNode { color: Color::Black, key: 13, left: Some(Box::new(s2_2)), right: None };
        proof {
            assert(s2_3.ms() =~= Multiset::<i32>::empty().insert(10).insert(13));
            assert(s2_3.balanced() && s2_3.nrr() && s2_3.ordered());
            assert(s2_3.bh() == 1 && s2_3.count() == 2);
        }
        let s2_4 = RedBlackNode { color: Color::Black, key: 9, left: Some(Box::new(s2_1)), right: Some(Box::new(s2_3)) };
        proof {
            assert(s2_4.ms() =~= Multiset::<i32>::empty().insert(6).insert(9).insert(10).insert(13));
            assert(s2_4.balanced() && s2_4.nrr() && s2_4.ordered());
            assert(s2_4.bh() == 2 && s2_4.count() == 4);
        }
        let s2_5 = RedBlackNode { color: Color::Red, key: 27, left: None, right: None };
        proof {
            assert(s2_5.ms() =~= Multiset::<i32>::empty().insert(27));
            assert(s2_5.balanced() && s2_5.nrr() && s2_5.ordered());
            assert(s2_5.bh() == 0 && s2_5.count() == 1);
        }
        let s2_6 = RedBlackNode { color: Color::Black, key: 23, left: None, right: Some(Box::new(s2_5)) };
        proof {
            assert(s2_6.ms() =~= Multiset::<i32>::empty().insert(23).insert(27));
            assert(s2_6.balanced() && s2_6.nrr() && s2_6.ordered());
            assert(s2_6.bh() == 1 && s2_6.count() == 2);
        }
        let s2_7 = RedBlackNode { color: Color::Black, key: 37, left: None, right: None };
        proof {
            assert(s2_7.ms() =~= Multiset::<i32>::empty().insert(37));
            assert(s2_7.balanced() && s2_7.nrr() && s2_7.ordered());
            assert(s2_7.bh() == 1 && s2_7.count() == 1);
        }
        let s2_8 = RedBlackNode { color: Color::Black, key: 34, left: Some(Box::new(s2_6)), right: Some(Box::new(s2_7)) };
        proof {
            assert(s2_8.ms() =~= Multiset::<i32>::empty().insert(23).insert(27).insert(34).insert(37));
            assert(s2_8.balanced() && s2_8.nrr() && s2_8.ordered());
            assert(s2_8.bh() == 2 && s2_8.count() == 4);
        }
        let s2_9 = RedBlackNode { color: Color::Black, key: 17, left: Some(Box::new(s2_4)), right: Some(Box::new(s2_8)) };
        proof {
            assert(s2_9.ms() =~= Multiset::<i32>::empty().insert(6).insert(9).insert(10).insert(13).insert(17).insert(23).insert(27).insert(34).insert(37));
            assert(s2_9.balanced() && s2_9.nrr() && s2_9.ordered());
            assert(s2_9.bh() == 3 && s2_9.count() == 9);
        }
        let t2 = RedBlackTree { size: 9, root: Some(Box::new(s2_9)) };
        proof {
            assert(t2.wf());
        }
        rbts.push(t2);
        let s3_1 = RedBlackNode { color: Color::Black, key: 9, left: None, right: None };
        proof {
            assert(s3_1.ms() =~= Multiset::<i32>::empty().insert(9));
            assert(s3_1.balanced() && s3_1.nrr() && s3_1.ordered());
            assert(s3_1.bh() == 1 && s3_1.count() == 1);
        }
        let s3_2 = RedBlackNode { color: Color::Black, key: 13, left: None, right: None };
        proof {
            assert(s3_2.ms() =~= Multiset::<i32>::empty().insert(13));
            assert(s3_2.balanced() && s3_2.nrr() && s3_2.ordered());
            assert(s3_2.bh() == 1 && s3_2.count() == 1);
        }
        let s3_3 = RedBlackNode { color: Color::Black, key: 10, left: Some(Box::new(s3_1)), right: Some(Box::new(s3_2)) };
        proof {
            assert(s3_3.ms() =~= Multiset::<i32>::empty().insert(9).insert(10).insert(13));
            assert(s3_3.balanced() && s3_3.nrr() && s3_3.ordered());
            assert(s3_3.bh() == 2 && s3_3.count() == 3);
        }
        let s3_4 = RedBlackNode { color: Color::Red, key: 27, left: None, right: None };
        proof {
            assert(s3_4.ms() =~= Multiset::<i32>::empty().insert(27));
            assert(s3_4.balanced() && s3_4.nrr() && s3_4.ordered());
            assert(s3_4.bh() == 0 && s3_4.count() == 1);
        }
        let s3_5 = RedBlackNode { color: Color::Black, key: 23, left: None, right: Some(Box::new(s3_4)) };
        proof {
            assert(s3_5.ms() =~= Multiset::<i32>::empty().insert(23).insert(27));
            assert(s3_5.balanced() && s3_5.nrr() && s3_5.ordered());
            assert(s3_5.bh() == 1 && s3_5.count() == 2);
        }
        let s3_6 = RedBlackNode { color: Color::Black, key: 37, left: None, right: None };
        proof {
            assert(s3_6.ms() =~= Multiset::<i32>::empty().insert(37));
            assert(s3_6.balanced() && s3_6.nrr() && s3_6.ordered());
            assert(s3_6.bh() == 1 && s3_6.count() == 1);
        }
        let s3_7 = RedBlackNode { color: Color::Black, key: 34, left: Some(Box::new(s3_5)), right: Some(Box::new(s3_6)) };
        proof {
            assert(s3_7.ms() =~= Multiset::<i32>::empty().insert(23).insert(27).insert(34).insert(37));
            assert(s3_7.balanced() && s3_7.nrr() && s3_7.ordered());
            assert(s3_7.bh() == 2 && s3_7.count() == 4);
        }
        let s3_8 = RedBlackNode { color: Color::Black, key: 17, left: Some(Box::new(s3_3)), right: Some(Box::new(s3_7)) };
        proof {
            assert(s3_8.ms() =~= Multiset::<i32>::empty().insert(9).insert(10).insert(13).insert(17).insert(23).insert(27).insert(34).insert(37));
            assert(s3_8.balanced() && s3_8.nrr() && s3_8.ordered());
            assert(s3_8.bh() == 3 && s3_8.count() == 8);
        }
        let t3 = RedBlackTree { size: 8, root: Some(Box::new(s3_8)) };
        proof {
            assert(t3.wf());
        }
        rbts.push(t3);
        let s4_1 = RedBlackNode { color: Color::Red, key: 9, left: None, right: None };
        proof {
            assert(s4_1.ms() =~= Multiset::<i32>::empty().insert(9));
            assert(s4_1.balanced() && s4_1.nrr() && s4_1.ordered());
            assert(s4_1.bh() == 0 && s4_1.count() == 1);
        }
        let s4_2 = RedBlackNode { color: Color::Black, key: 10, left: Some(Box::new(s4_1)), right: None };
        proof {
            assert(s4_2.ms() =~= Multiset::<i32>::empty().insert(9).insert(10));
            assert(s4_2.balanced() && s4_2.nrr() && s4_2.ordered());
            assert(s4_2.bh() == 1 && s4_2.count() == 2);
        }
        let s4_3 = RedBlackNode { color: Color::Red, key: 27, left: None, right: None };
        proof {
            assert(s4_3.ms() =~= Multiset::<i32>::empty().insert(27));
            assert(s4_3.balanced() && s4_3.nrr() && s4_3.ordered());
            assert(s4_3.bh() == 0 && s4_3.count() == 1);
        }
        let s4_4 = RedBlackNode { color: Color::Black, key: 23, left: None, right: Some(Box::new(s4_3)) };
        proof {
            assert(s4_4.ms() =~= Multiset::<i32>::empty().insert(23).insert(27));
            assert(s4_4.balanced() && s4_4.nrr() && s4_4.ordered());
            assert(s4_4.bh() == 1 && s4_4.count() == 2);
        }
        let s4_5 = RedBlackNode { color: Color::Black, key: 37, left: None, right: None };
        proof {
            assert(s4_5.ms() =~= Multiset::<i32>::empty().insert(37));
            assert(s4_5.balanced() && s4_5.nrr() && s4_5.ordered());
            assert(s4_5.bh() == 1 && s4_5.count() == 1);
        }
        let s4_6 = RedBlackNode { color: Color::Red, key: 34, left: Some(Box::new(s4_4)), right: Some(Box::new(s4_5)) };
        proof {
            assert(s4_6.ms() =~= Multiset::<i32>::empty().insert(23).insert(27).insert(34).insert(37));
            assert(s4_6.balanced() && s4_6.nrr() && s4_6.ordered());
            assert(s4_6.bh() == 1 && s4_6.count() == 4);
        }
        let s4_7 = RedBlackNode { color: Color::Black, key: 17, left: Some(Box::new(s4_2)), right: Some(Box::new(s4_6)) };
        proof {
            assert(s4_7.ms() =~= Multiset::<i32>::empty().insert(9).insert(10).insert(17).insert(23).insert(27).insert(34).insert(37));
            assert(s4_7.balanced() && s4_7.nrr() && s4_7.ordered());
            assert(s4_7.bh() == 2 && s4_7.count() == 7);
        }
        let t4 = RedBlackTree { size: 7, root: Some(Box::new(s4_7)) };
        proof {
            assert(t4.wf());
        }
        rbts.push(t4);
        let s5_1 = RedBlackNode { color: Color::Red, key: 9, left: None, right: None };
        proof {
            assert(s5_1.ms() =~= Multiset::<i32>::empty().insert(9));
            assert(s5_1.balanced() && s5_1.nrr() && s5_1.ordered());
            assert(s5_1.bh() == 0 && s5_1.count() == 1);
        }
        let s5_2 = RedBlackNode { color: Color::Black, key: 10, left: Some(Box::new(s5_1)), right: None };
        proof {
            assert(s5_2.ms() =~= Multiset::<i32>::empty().insert(9).insert(10));
            assert(s5_2.balanced() && s5_2.nrr() && s5_2.ordered());
            assert(s5_2.bh() == 1 && s5_2.count() == 2);
        }
        let s5_3 = RedBlackNode { color: Color::Black, key: 23, left: None, right: None };
        proof {
            assert(s5_3.ms() =~= Multiset::<i32>::empty().insert(23));
            assert(s5_3.balanced() && s5_3.nrr() && s5_3.ordered());
            assert(s5_3.bh() == 1 && s5_3.count() == 1);
        }
        let s5_4 = RedBlackNode { color: Color::Black, key: 34, left: None, right: None };
        proof {
            assert(s5_4.ms() =~= Multiset::<i32>::empty().insert(34));
            assert(s5_4.balanced() && s5_4.nrr() && s5_4.ordered());
            assert(s5_4.bh() == 1 && s5_4.count() == 1);
        }
        let s5_5 = RedBlackNode { color: Color::Red, key: 27, left: Some(Box::new(s5_3)), right: Some(Box::new(s5_4)) };
        proof {
            assert(s5_5.ms() =~= Multiset::<i32>::empty().insert(23).insert(27).insert(34));
            assert(s5_5.balanced() && s5_5.nrr() && s5_5.ordered());
            assert(s5_5.bh() == 1 && s5_5.count() == 3);
        }
        let s5_6 = RedBlackNode { color: Color::Black, key: 17, left: Some(Box::new(s5_2)), right: Some(Box::new(s5_5)) };
        proof {
            assert(s5_6.ms() =~= Multiset::<i32>::empty().insert(9).insert(10).insert(17).insert(23).insert(27).insert(34));
            assert(s5_6.balanced() && s5_6.nrr() && s5_6.ordered());
            assert(s5_6.bh() == 2 && s5_6.count() == 6);
        }
        let t5 = RedBlackTree { size: 6, root: Some(Box::new(s5_6)) };
        proof {
            assert(t5.wf());
        }
        rbts.push(t5);
        let s6_1 = RedBlackNode { color: Color::Red, key: 9, left: None, right: None };
        proof {
            assert(s6_1.ms() =~= Multiset::<i32>::empty().insert(9));
            assert(s6_1.balanced() && s6_1.nrr() && s6_1.ordered());
            assert(s6_1.bh() == 0 && s6_1.count() == 1);
        }
        let s6_2 = RedBlackNode { color: Color::Black, key: 10, left: Some(Box::new(s6_1)), right: None };
        proof {
            assert(s6_2.ms() =~= Multiset::<i32>::empty().insert(9).insert(10));
            assert(s6_2.balanced() && s6_2.nrr() && s6_2.ordered());
            assert(s6_2.bh() == 1 && s6_2.count() == 2);
        }
        let s6_3 = RedBlackNode { color: Color::Red, key: 23, left: None, right: None };
        proof {
            assert(s6_3.ms() =~= Multiset::<i32>::empty().insert(23));
            assert(s6_3.balanced() && s6_3.nrr() && s6_3.ordered());
            assert(s6_3.bh() == 0 && s6_3.count() == 1);
        }
        let s6_4 = RedBlackNode { color: Color::Black, key: 34, left: Some(Box::new(s6_3)), right: None };
        proof {
            assert(s6_4.ms() =~= Multiset::<i32>::empty().insert(23).insert(34));
            assert(s6_4.balanced() && s6_4.nrr() && s6_4.ordered());
            assert(s6_4.bh() == 1 && s6_4.count() == 2);
        }
        let s6_5 = RedBlackNode { color: Color::Black, key: 17, left: Some(Box::new(s6_2)), right: Some(Box::new(s6_4)) };
        proof {
            assert(s6_5.ms() =~= Multiset::<i32>::empty().insert(9).insert(10).insert(17).insert(23).insert(34));
            assert(s6_5.balanced() && s6_5.nrr() && s6_5.ordered());
            assert(s6_5.bh() == 2 && s6_5.count() == 5);
        }
        let t6 = RedBlackTree { size: 5, root: Some(Box::new(s6_5)) };
        proof {
            assert(t6.wf());
        }
        rbts.push(t6);
        let s7_1 = RedBlackNode { color: Color::Red, key: 9, left: None, right: None };
        proof {
            assert(s7_1.ms() =~= Multiset::<i32>::empty().insert(9));
            assert(s7_1.balanced() && s7_1.nrr() && s7_1.ordered());
            assert(s7_1.bh() == 0 && s7_1.count() == 1);
        }
        let s7_2 = RedBlackNode { color: Color::Black, key: 10, left: Some(Box::new(s7_1)), right: None };
        proof {
            assert(s7_2.ms() =~= Multiset::<i32>::empty().insert(9).insert(10));
            assert(s7_2.balanced() && s7_2.nrr() && s7_2.ordered());
            assert(s7_2.bh() == 1 && s7_2.count() == 2);
        }
        let s7_3 = RedBlackNode { color: Color::Black, key: 34, left: None, right: None };
        proof {
            assert(s7_3.ms() =~= Multiset::<i32>::empty().insert(34));
            assert(s7_3.balanced() && s7_3.nrr() && s7_3.ordered());
            assert(s7_3.bh() == 1 && s7_3.count() == 1);
        }
        let s7_4 = RedBlackNode { color: Color::Black, key: 23, left: Some(Box::new(s7_2)), right: Some(Box::new(s7_3)) };
        proof {
            assert(s7_4.ms() =~= Multiset::<i32>::empty().insert(9).insert(10).insert(23).insert(34));
            assert(s7_4.balanced() && s7_4.nrr() && s7_4.ordered());
            assert(s7_4.bh() == 2 && s7_4.count() == 4);
        }
        let t7 = RedBlackTree { size: 4, root: Some(Box::new(s7_4)) };
        proof {
            assert(t7.wf());
        }
        rbts.push(t7);
        let s8_1 = RedBlackNode { color: Color::Black, key: 9, left: None, right: None };
        proof {
            assert(s8_1.ms() =~= Multiset::<i32>::empty().insert(9));
            assert(s8_1.balanced() && s8_1.nrr() && s8_1.ordered());
            assert(s8_1.bh() == 1 && s8_1.count() == 1);
        }
        let s8_2 = RedBlackNode { color: Color::Black, key: 23, left: None, right: None };
        proof {
            assert(s8_2.ms() =~= Multiset::<i32>::empty().insert(23));
            assert(s8_2.balanced() && s8_2.nrr() && s8_2.ordered());
            assert(s8_2.bh() == 1 && s8_2.count() == 1);
        }
        let s8_3 = RedBlackNode { color: Color::Black, key: 10, left: Some(Box::new(s8_1)), right: Some(Box::new(s8_2)) };
        proof {
            assert(s8_3.ms() =~= Multiset::<i32>::empty().insert(9).insert(10).insert(23));
            assert(s8_3.balanced() && s8_3.nrr() && s8_3.ordered());
            assert(s8_3.bh() == 2 && s8_3.count() == 3);
        }
        let t8 = RedBlackTree { size: 3, root: Some(Box::new(s8_3)) };
        proof {
            assert(t8.wf());
        }
        rbts.push(t8);
        let s9_1 = RedBlackNode { color: Color::Red, key: 23, left: None, right: None };
        proof {
            assert(s9_1.ms() =~= Multiset::<i32>::empty().insert(23));
            assert(s9_1.balanced() && s9_1.nrr() && s9_1.ordered());
            assert(s9_1.bh() == 0 && s9_1.count() == 1);
        }
        let s9_2 = RedBlackNode { color: Color::Black, key: 10, left: None, right: Some(Box::new(s9_1)) };
        proof {
            assert(s9_2.ms() =~= Multiset::<i32>::empty().insert(10).insert(23));
            assert(s9_2.balanced() && s9_2.nrr() && s9_2.ordered());
            assert(s9_2.bh() == 1 && s9_2.count() == 2);
        }
        let t9 = RedBlackTree { size: 2, root: Some(Box::new(s9_2)) };
        proof {
            assert(t9.wf());
        }
        rbts.push(t9);
        let s10_1 = RedBlackNode { color: Color::Black, key: 23, left: None, right: None };
        proof {
            assert(s10_1.ms() =~= Multiset::<i32>::empty().insert(23));
            assert(s10_1.balanced() && s10_1.nrr() && s10_1.ordered());
            assert(s10_1.bh() == 1 && s10_1.count() == 1);
        }
        let t10 = RedBlackTree { size: 1, root: Some(Box::new(s10_1)) };
        proof {
            assert(t10.wf());
        }
        rbts.push(t10);
        rbts.push(RedBlackTree::new());
        proof {
            assert(forall|i: int| 0 <= i < rbts@.len() ==> #[trigger] rbts@[i].wf());
        }
        let dels = vec![18, 25, 15, 6, 13, 37, 27, 17, 34, 9, 10, 23];
        proof {
            assert(dels@ =~= seq![18i32, 25i32, 15i32, 6i32, 13i32, 37i32, 27i32, 17i32, 34i32, 9i32, 10i32, 23i32]);
        }
        (rbt_test, rbts, dels)
    }
}

impl RedBlackNode {
    /// A fresh red leaf holding `key`.
    pub fn from(key: i32) -> (r: Self)
        ensures
            r.color is Red,
            r.key == key,
            r.left is None,
            r.right is None,
            r.ms() == Multiset::<i32>::empty().insert(key),
            r.wf(),
            r.bh() == 0,
            r.count() == 1,
    {
        let r = RedBlackNode { color: Color::Red, key, left: None, right: None };
        proof {
            broadcast use vstd::multiset::group_multiset_axioms;

            assert(r.ms() =~= Multiset::<i32>::empty().insert(key));
        }
        r
    }

    /// Recolours this node black.
    fn set_color_black(&mut self)
        ensures
            final(self).color is Black,
            final(self).key == old(self).key,
            final(self).left == old(self).left,
            final(self).right == old(self).right,
    {
        self.color = Color::Black;
    }

    /// Recolours this node red.
    fn set_color_red(&mut self)
        ensures
            final(self).color is Red,
            final(self).key == old(self).key,
            final(self).left == old(self).left,
            final(self).right == old(self).right,
    {
        self.color = Color::Red;
    }

    /// Flips this node's colour.
    fn change_color(&mut self)
        ensures
            final(self).color == flip(old(self).color),
            final(self).key == old(self).key,
            final(self).left == old(self).left,
            final(self).right == old(self).right,
    {
        match self.color {
            Color::Red => self.color = Color::Black,
            Color::Black => self.color = Color::Red,
        }
    }

    /// The colours of the two children; an absent child reads as black.
    fn get_child_color(&self) -> (r: (Color, Color))
        ensures
            r.0 == opt_color(self.left),
            r.1 == opt_color(self.right),
    {
        match (self.left.as_ref(), self.right.as_ref()) {
            (Some(left), Some(right)) => (left.color, right.color),
            (Some(left), None) => (left.color, Color::Black),
            (None, Some(right)) => (Color::Black, right.color),
            (None, None) => (Color::Black, Color::Black),
        }
    }

    /// Flips the colour of this node and of both of its children. Keys,
    /// counts and ordering are untouched; when a black node with two red
    /// children is flipped, black-height, balance and the red-red
    /// invariant carry over.
    fn change_color_for_nodes(&mut self)
        ensures
            final(self).color == flip(old(self).color),
            final(self).key == old(self).key,
            final(self).left == flip_top(old(self).left),
            final(self).right == flip_top(old(self).right),
            final(self).ms() == old(self).ms(),
            final(self).count() == old(self).count(),
            final(self).ordered() == old(self).ordered(),
            (old(self).color is Black && opt_color(old(self).left) is Red
                && opt_color(old(self).right) is Red && old(self).balanced())
                ==> final(self).bh() == old(self).bh() && final(self).balanced(),
            (old(self).color is Black && opt_color(old(self).left) is Red
                && opt_color(old(self).right) is Red && sub_nrr(old(self).left)
                && sub_nrr(old(self).right)) ==> final(self).nrr(),
    {
        proof {
            lemma_flip_top_same_keys(old(self).left);
            lemma_flip_top_same_keys(old(self).right);
        }
        self.change_color();
        let (left, right) = match (self.left.take(), self.right.take()) {
            (Some(mut left), Some(mut right)) => {
                left.change_color();
                right.change_color();
                (Some(left), Some(right))
            }
            (Some(mut left), None) => {
                left.change_color();
                (Some(left), None)
            }
            (None, Some(mut right)) => {
                right.change_color();
                (None, Some(right))
            }
            (None, None) => (None, None),
        };
        self.left = left;
        self.right = right;
    }

    /// Left rotation: the right child takes this node's position and this
    /// node adopts that child's left subtree. Callers decide all colours.
    fn left_rorate(self) -> (r: Box<RedBlackNode>)
        requires
            self.right is Some,
        ensures
            *r == (RedBlackNode {
                color: self.right.unwrap().color,
                key: self.right.unwrap().key,
                left: Some(Box::new(RedBlackNode {
                    color: self.color,
                    key: self.key,
                    left: self.left,
                    right: self.right.unwrap().left,
                })),
                right: self.right.unwrap().right,
            }),
    {
        let mut this = self;
        match this.right.take() {
            Some(mut right) => {
                this.right = right.left.take();
                right.left = Some(Box::new(this));
                right
            }
            None => unreached(),
        }
    }

    /// Right rotation, the mirror of [`Self::left_rorate`].
    fn right_rorate(self) -> (r: Box<RedBlackNode>)
        requires
            self.left is Some,
        ensures
            *r == (RedBlackNode {
                color: self.left.unwrap().color,
                key: self.left.unwrap().key,
                left: self.left.unwrap().left,
                right: Some(Box::new(RedBlackNode {
                    color: self.color,
                    key: self.key,
                    left: self.left.unwrap().right,
                    right: self.right,
                })),
            }),
    {
        let mut this = self;
        match this.left.take() {
            Some(mut left) => {
                this.left = left.right.take();
                left.right = Some(Box::new(this));
                left
            }
            None => unreached(),
        }
    }

    /// Same-side repair for a left-left red pattern: recolour this node and
    /// the returning left child, then rotate right.
    fn append_ll(self, left: Box<RedBlackNode>) -> (r: Box<RedBlackNode>)
        requires
            self.left is None,
            self.color is Black,
            left.color is Red,
            opt_color(left.left) is Red,
            opt_color(left.right) is Black,
            left.balanced(),
            left.ordered(),
            opt_nrr(left.left),
            opt_nrr(left.right),
            opt_balanced(self.right),
            opt_ordered(self.right),
            opt_nrr(self.right),
            opt_color(self.right) is Black,
            left.bh() == opt_bh(self.right),
            all_at_most(left.ms(), self.key as int),
            all_at_least(opt_ms(self.right), self.key as int),
        ensures
            *r == (RedBlackNode {
                color: flip(left.color),
                key: left.key,
                left: left.left,
                right: Some(Box::new(RedBlackNode {
                    color: flip(self.color),
                    key: self.key,
                    left: left.right,
                    right: self.right,
                })),
            }),
            r.balanced(),
            r.ordered(),
            r.nrr(),
            r.color is Black,
            r.bh() == left.bh() + 1,
            r.ms() == left.ms().insert(self.key).add(opt_ms(self.right)),
            r.count() == left.count() + 1 + opt_count(self.right),
    {
        let ghost left0 = *left;
        let mut this = self;
        let mut left = left;
        this.change_color();
        left.change_color();
        this.left = Some(left);
        let r = this.right_rorate();
        proof {
            lemma_ms_parts(left0);
            let inner = RedBlackNode {
                color: flip(self.color),
                key: self.key,
                left: left0.right,
                right: self.right,
            };
            assert(*r == (RedBlackNode {
                color: flip(left0.color),
                key: left0.key,
                left: left0.left,
                right: Some(Box::new(inner)),
            }));
            assert(inner.balanced() && inner.nrr() && inner.ordered());
            assert(r.balanced() && r.nrr() && r.ordered());
            assert(r.ms() =~= left0.ms().insert(self.key).add(opt_ms(self.right)));
            assert(inner.count() == 1 + opt_count(left0.right) + opt_count(self.right));
            assert(r.count() == left0.count() + 1 + opt_count(self.right));
        }
        r
    }

    /// Same-side repair for a right-right red pattern, the mirror of
    /// [`Self::append_ll`].
    fn append_rr(self, right: Box<RedBlackNode>) -> (r: Box<RedBlackNode>)
        requires
            self.right is None,
            self.color is Black,
            right.color is Red,
            opt_color(right.right) is Red,
            opt_color(right.left) is Black,
            right.balanced(),
            right.ordered(),
            opt_nrr(right.left),
            opt_nrr(right.right),
            opt_balanced(self.left),
            opt_ordered(self.left),
            opt_nrr(self.left),
            opt_color(self.left) is Black,
            right.bh() == opt_bh(self.left),
            all_at_least(right.ms(), self.key as int),
            all_at_most(opt_ms(self.left), self.key as int),
        ensures
            *r == (RedBlackNode {
                color: flip(right.color),
                key: right.key,
                left: Some(Box::new(RedBlackNode {
                    color: flip(self.color),
                    key: self.key,
                    left: self.left,
                    right: right.left,
                })),
                right: right.right,
            }),
            r.balanced(),
            r.ordered(),
            r.nrr(),
            r.color is Black,
            r.bh() == right.bh() + 1,
            r.ms() == opt_ms(self.left).insert(self.key).add(right.ms()),
            r.count() == opt_count(self.left) + 1 + right.count(),
    {
        let ghost right0 = *right;
        let mut this = self;
        let mut right = right;
        this.change_color();
        right.change_color();
        this.right = Some(right);
        let r = this.left_rorate();
        proof {
            lemma_ms_parts(right0);
            let inner = RedBlackNode {
                color: flip(self.color),
                key: self.key,
                left: self.left,
                right: right0.left,
            };
            assert(*r == (RedBlackNode {
                color: flip(right0.color),
                key: right0.key,
                left: Some(Box::new(inner)),
                right: right0.right,
            }));
            assert(inner.balanced() && inner.nrr() && inner.ordered());
            assert(r.balanced() && r.nrr() && r.ordered());
            assert(r.ms() =~= opt_ms(self.left).insert(self.key).add(right0.ms()));
            assert(inner.count() == 1 + opt_count(self.left) + opt_count(right0.left));
            assert(r.count() == opt_count(self.left) + 1 + right0.count());
        }
        r
    }

    /// Opposite-side repair for a left-right red pattern: rotate the child
    /// left to align the pattern, then rotate this node right.
    fn append_lr(self, left: Box<RedBlackNode>) -> (r: Box<RedBlackNode>)
        requires
            left.right is Some,
            self.left is None,
            self.color is Black,
            left.color is Red,
            opt_color(left.right) is Red,
            opt_color(left.left) is Black,
            left.balanced(),
            left.ordered(),
            opt_nrr(left.left),
            opt_nrr(left.right),
            opt_balanced(self.right),
            opt_ordered(self.right),
            opt_nrr(self.right),
            opt_color(self.right) is Black,
            left.bh() == opt_bh(self.right),
            all_at_most(left.ms(), self.key as int),
            all_at_least(opt_ms(self.right), self.key as int),
        ensures
            r.balanced(),
            r.ordered(),
            r.nrr(),
            r.color is Black,
            r.bh() == left.bh() + 1,
            r.ms() == left.ms().insert(self.key).add(opt_ms(self.right)),
            r.count() == left.count() + 1 + opt_count(self.right),
            *r == (RedBlackNode {
                color: flip(left.right.unwrap().color),
                key: left.right.unwrap().key,
                left: Some(Box::new(RedBlackNode {
                    color: left.color,
                    key: left.key,
                    left: left.left,
                    right: left.right.unwrap().left,
                })),
                right: Some(Box::new(RedBlackNode {
                    color: flip(self.color),
                    key: self.key,
                    left: left.right.unwrap().right,
                    right: self.right,
                })),
            }),
    {
        let ghost left0 = *left;
        let ghost mid0 = *left.right.unwrap();
        let mut this = self;
        let mut left = left;
        this.change_color();
        left.right = match left.right.take() {
            Some(mut right) => {
                right.change_color();
                Some(right)
            }
            None => unreached(),
        };
        let left = left.left_rorate();
        this.left = Some(left);
        let r = this.right_rorate();
        proof {
            lemma_ms_parts(left0);
            lemma_ms_parts(mid0);
            let low = RedBlackNode {
                color: left0.color,
                key: left0.key,
                left: left0.left,
                right: mid0.left,
            };
            let high = RedBlackNode {
                color: flip(self.color),
                key: self.key,
                left: mid0.right,
                right: self.right,
            };
            assert(*r == (RedBlackNode {
                color: flip(mid0.color),
                key: mid0.key,
                left: Some(Box::new(low)),
                right: Some(Box::new(high)),
            }));
            assert(opt_ms(left0.right) == mid0.ms());
            assert(opt_bh(left0.right) == mid0.bh());
            assert(mid0.balanced() && mid0.nrr() && mid0.ordered());
            assert(mid0.ms().count(mid0.key) > 0);
            assert(low.balanced());
            assert(low.nrr());
            assert(low.ordered());
            assert(high.balanced());
            assert(high.nrr());
            assert(high.ordered());
            assert(low.ms() =~= opt_ms(left0.left).insert(left0.key).add(opt_ms(mid0.left)));
            assert(high.ms() =~= opt_ms(mid0.right).insert(self.key).add(opt_ms(self.right)));
            assert(r.balanced() && r.nrr());
            assert(r.ordered());
            assert(r.ms() =~= left0.ms().insert(self.key).add(opt_ms(self.right)));
            assert(low.count() == 1 + opt_count(left0.left) + opt_count(mid0.left));
            assert(high.count() == 1 + opt_count(mid0.right) + opt_count(self.right));
            assert(opt_count(left0.right) == mid0.count());
            assert(r.count() == left0.count() + 1 + opt_count(self.right));
        }
        r
    }

    /// Opposite-side repair for a right-left red pattern, the mirror of
    /// [`Self::append_lr`].
    fn append_rl(self, right: Box<RedBlackNode>) -> (r: Box<RedBlackNode>)
        requires
            right.left is Some,
            self.right is None,
            self.color is Black,
            right.color is Red,
            opt_color(right.left) is Red,
            opt_color(right.right) is Black,
            right.balanced(),
            right.ordered(),
            opt_nrr(right.left),
            opt_nrr(right.right),
            opt_balanced(self.left),
            opt_ordered(self.left),
            opt_nrr(self.left),
            opt_color(self.left) is Black,
            right.bh() == opt_bh(self.left),
            all_at_least(right.ms(), self.key as int),
            all_at_most(opt_ms(self.left), self.key as int),
        ensures
            r.balanced(),
            r.ordered(),
            r.nrr(),
            r.color is Black,
            r.bh() == right.bh() + 1,
            r.ms() == opt_ms(self.left).insert(self.key).add(right.ms()),
            r.count() == opt_count(self.left) + 1 + right.count(),
            *r == (RedBlackNode {
                color: flip(right.left.unwrap().color),
                key: right.left.unwrap().key,
                left: Some(Box::new(RedBlackNode {
                    color: flip(self.color),
                    key: self.key,
                    left: self.left,
                    right: right.left.unwrap().left,
                })),
                right: Some(Box::new(RedBlackNode {
                    color: right.color,
                    key: right.key,
                    left: right.left.unwrap().right,
                    right: right.right,
                })),
            }),
    {
        let ghost right0 = *right;
        let ghost mid0 = *right.left.unwrap();
        let mut this = self;
        let mut right = right;
        this.change_color();
        right.left = match right.left.take() {
            Some(mut left) => {
                left.change_color();
                Some(left)
            }
            None => unreached(),
        };
        let right = right.right_rorate();
        this.right = Some(right);
        let r = this.left_rorate();
        proof {
            lemma_ms_parts(right0);
            lemma_ms_parts(mid0);
            let low = RedBlackNode {
                color: flip(self.color),
                key: self.key,
                left: self.left,
                right: mid0.left,
            };
            let high = RedBlackNode {
                color: right0.color,
                key: right0.key,
                left: mid0.right,
                right: right0.right,
            };
            assert(*r == (RedBlackNode {
                color: flip(mid0.color),
                key: mid0.key,
                left: Some(Box::new(low)),
                right: Some(Box::new(high)),
            }));
            assert(opt_ms(right0.left) == mid0.ms());
            assert(opt_bh(right0.left) == mid0.bh());
            assert(mid0.balanced() && mid0.nrr() && mid0.ordered());
            assert(mid0.ms().count(mid0.key) > 0);
            assert(low.balanced());
            assert(low.nrr());
            assert(low.ordered());
            assert(high.balanced());
            assert(high.nrr());
            assert(high.ordered());
            assert(low.ms() =~= opt_ms(self.left).insert(self.key).add(opt_ms(mid0.left)));
            assert(high.ms() =~= opt_ms(mid0.right).insert(right0.key).add(opt_ms(right0.right)));
            assert(r.balanced() && r.nrr());
            assert(r.ordered());
            assert(r.ms() =~= opt_ms(self.left).insert(self.key).add(right0.ms()));
            assert(low.count() == 1 + opt_count(self.left) + opt_count(mid0.left));
            assert(high.count() == 1 + opt_count(mid0.right) + opt_count(right0.right));
            assert(opt_count(right0.left) == mid0.count());
            assert(r.count() == opt_count(self.left) + 1 + right0.count());
        }
        r
    }


    /// Removes the root of a subtree that has at most one child,
    /// promoting and blackening that child if it exists.
    fn delete_root(root: Box<RedBlackNode>) -> (r: (Option<Box<RedBlackNode>>, i32))
        requires
            root.balanced(),
            root.nrr(),
            root.ordered(),
            !(root.left is Some && root.right is Some),
        ensures
            r.1 == root.key,
            opt_wf(r.0),
            opt_color(r.0) is Black,
            opt_ms(r.0) == root.ms().remove(root.key),
            opt_count(r.0) + 1 == root.count(),
    {
        proof {
            lemma_low_node(*root);
        }
        let ghost root0 = *root;
        let mut root = root;
        match (root.left.take(), root.right.take()) {
            (Some(mut left), None) => {
                left.set_color_black();
                proof {
                    assert(opt_ms(Some(left)) =~= root0.ms().remove(root0.key));
                    assert(left.left is None && left.right is None);
                    assert(left.count() == 1 + opt_count(left.left) + opt_count(left.right));
                    assert(root0.count() == 1 + opt_count(root0.left) + opt_count(root0.right));
                    assert(opt_count(root0.left) == 1);
                }
                (Some(left), root.key)
            }
            (None, Some(mut right)) => {
                right.set_color_black();
                proof {
                    assert(opt_ms(Some(right)) =~= root0.ms().remove(root0.key));
                    assert(right.left is None && right.right is None);
                    assert(right.count() == 1 + opt_count(right.left) + opt_count(right.right));
                    assert(root0.count() == 1 + opt_count(root0.left) + opt_count(root0.right));
                    assert(opt_count(root0.right) == 1);
                }
                (Some(right), root.key)
            }
            (None, None) => {
                proof {
                    assert(opt_ms(None::<Box<RedBlackNode>>) =~= root0.ms().remove(root0.key));
                    assert(root0.count() == 1);
                }
                (None, root.key)
            }
            _ => unreached(),
        }
    }

    /// Deletion repair when the deficiency is on the right, the left
    /// sibling is black and its left child is red: one right rotation
    /// absorbs the red child and restores the missing black.
    fn delete_ll(self, left: Box<RedBlackNode>, sub_left: Box<RedBlackNode>) -> (r: Box<RedBlackNode>)
        requires
            self.left is None,
            left.left is None,
            left.color is Black,
            sub_left.color is Red,
            sub_left.balanced(),
            sub_left.nrr(),
            sub_left.ordered(),
            opt_wf(left.right),
            opt_wf(self.right),
            opt_color(self.right) is Black,
            sub_left.bh() == opt_bh(left.right),
            opt_bh(self.right) == opt_bh(left.right),
            all_at_most(sub_left.ms(), left.key as int),
            all_at_least(opt_ms(left.right), left.key as int),
            left.key <= self.key,
            all_at_most(sub_left.ms(), self.key as int),
            all_at_most(opt_ms(left.right), self.key as int),
            all_at_least(opt_ms(self.right), self.key as int),
        ensures
            r.balanced(),
            r.nrr(),
            r.ordered(),
            r.color == self.color,
            r.bh() == opt_bh(left.right) + 1 + (if self.color is Black { 1nat } else { 0nat }),
            r.ms() == sub_left.ms().insert(left.key).add(opt_ms(left.right)).insert(self.key).add(opt_ms(self.right)),
            *r == (RedBlackNode {
                color: self.color,
                key: left.key,
                left: Some(Box::new(RedBlackNode {
                    color: Color::Black,
                    key: sub_left.key,
                    left: sub_left.left,
                    right: sub_left.right,
                })),
                right: Some(Box::new(RedBlackNode {
                    color: Color::Black,
                    key: self.key,
                    left: left.right,
                    right: self.right,
                })),
            }),
    {
        let ghost left0 = *left;
        let ghost sub0 = *sub_left;
        let mut this = self;
        let mut left = left;
        let mut sub_left = sub_left;
        sub_left.change_color();
        left.change_color();
        let pcolor = this.color;
        this.set_color_black();
        left.left = Some(sub_left);
        left.color = pcolor;
        this.left = Some(left);
        let r = this.right_rorate();
        proof {
            lemma_ms_parts(sub0);
            let low = RedBlackNode {
                color: Color::Black,
                key: sub0.key,
                left: sub0.left,
                right: sub0.right,
            };
            let high = RedBlackNode {
                color: Color::Black,
                key: self.key,
                left: left0.right,
                right: self.right,
            };
            assert(*r == (RedBlackNode {
                color: pcolor,
                key: left0.key,
                left: Some(Box::new(low)),
                right: Some(Box::new(high)),
            }));
            assert(low.balanced() && low.nrr() && low.ordered());
            assert(low.bh() == sub0.bh() + 1);
            assert(low.ms() == sub0.ms());
            assert(high.balanced() && high.nrr() && high.ordered());
            assert(r.balanced() && r.nrr());
            assert(r.ordered());
            assert(r.ms() =~= sub0.ms().insert(left0.key).add(opt_ms(left0.right)).insert(self.key).add(opt_ms(self.right)));
        }
        r
    }

    /// Deletion repair when the deficiency is on the left, the right
    /// sibling is black and its right child is red, the mirror of
    /// [`Self::delete_ll`].
    fn delete_rr(self, right: Box<RedBlackNode>, sub_right: Box<RedBlackNode>) -> (r: Box<RedBlackNode>)
        requires
            self.right is None,
            right.right is None,
            right.color is Black,
            sub_right.color is Red,
            sub_right.balanced(),
            sub_right.nrr(),
            sub_right.ordered(),
            opt_wf(right.left),
            opt_wf(self.left),
            opt_color(self.left) is Black,
            sub_right.bh() == opt_bh(right.left),
            opt_bh(self.left) == opt_bh(right.left),
            all_at_least(sub_right.ms(), right.key as int),
            all_at_most(opt_ms(right.left), right.key as int),
            self.key <= right.key,
            all_at_least(sub_right.ms(), self.key as int),
            all_at_least(opt_ms(right.left), self.key as int),
            all_at_most(opt_ms(self.left), self.key as int),
        ensures
            r.balanced(),
            r.nrr(),
            r.ordered(),
            r.color == self.color,
            r.bh() == opt_bh(right.left) + 1 + (if self.color is Black { 1nat } else { 0nat }),
            r.ms() == opt_ms(self.left).insert(self.key).add(opt_ms(right.left)).insert(right.key).add(sub_right.ms()),
            *r == (RedBlackNode {
                color: self.color,
                key: right.key,
                left: Some(Box::new(RedBlackNode {
                    color: Color::Black,
                    key: self.key,
                    left: self.left,
                    right: right.left,
                })),
                right: Some(Box::new(RedBlackNode {
                    color: Color::Black,
                    key: sub_right.key,
                    left: sub_right.left,
                    right: sub_right.right,
                })),
            }),
    {
        let ghost right0 = *right;
        let ghost sub0 = *sub_right;
        let mut this = self;
        let mut right = right;
        let mut sub_right = sub_right;
        sub_right.change_color();
        right.change_color();
        let pcolor = this.color;
        this.set_color_black();
        right.right = Some(sub_right);
        right.color = pcolor;
        this.right = Some(right);
        let r = this.left_rorate();
        proof {
            lemma_ms_parts(sub0);
            let low = RedBlackNode {
                color: Color::Black,
                key: self.key,
                left: self.left,
                right: right0.left,
            };
            let high = RedBlackNode {
                color: Color::Black,
                key: sub0.key,
                left: sub0.left,
                right: sub0.right,
            };
            assert(*r == (RedBlackNode {
                color: pcolor,
                key: right0.key,
                left: Some(Box::new(low)),
                right: Some(Box::new(high)),
            }));
            assert(high.balanced() && high.nrr() && high.ordered());
            assert(high.bh() == sub0.bh() + 1);
            assert(high.ms() == sub0.ms());
            assert(low.balanced() && low.nrr() && low.ordered());
            assert(r.balanced() && r.nrr());
            assert(r.ordered());
            assert(r.ms() =~= opt_ms(self.left).insert(self.key).add(opt_ms(right0.left)).insert(right0.key).add(sub0.ms()));
        }
        r
    }

    /// Deletion repair when the deficiency is on the right, the left
    /// sibling is black and only its right child is red: a double
    /// rotation brings that child to the top.
    fn delete_lr(self, left: Box<RedBlackNode>, sub_right: Box<RedBlackNode>) -> (r: Box<RedBlackNode>)
        requires
            self.left is None,
            left.right is None,
            left.color is Black,
            sub_right.color is Red,
            sub_right.balanced(),
            sub_right.nrr(),
            sub_right.ordered(),
            opt_wf(left.left),
            opt_wf(self.right),
            opt_color(self.right) is Black,
            sub_right.bh() == opt_bh(left.left),
            opt_bh(self.right) == opt_bh(left.left),
            all_at_least(sub_right.ms(), left.key as int),
            all_at_most(opt_ms(left.left), left.key as int),
            left.key <= self.key,
            all_at_most(sub_right.ms(), self.key as int),
            all_at_most(opt_ms(left.left), self.key as int),
            all_at_least(opt_ms(self.right), self.key as int),
        ensures
            r.balanced(),
            r.nrr(),
            r.ordered(),
            r.color == self.color,
            r.bh() == opt_bh(left.left) + 1 + (if self.color is Black { 1nat } else { 0nat }),
            r.ms() == opt_ms(left.left).insert(left.key).add(sub_right.ms()).insert(self.key).add(opt_ms(self.right)),
            *r == (RedBlackNode {
                color: self.color,
                key: sub_right.key,
                left: Some(Box::new(RedBlackNode {
                    color: Color::Black,
                    key: left.key,
                    left: left.left,
                    right: sub_right.left,
                })),
                right: Some(Box::new(RedBlackNode {
                    color: Color::Black,
                    key: self.key,
                    left: sub_right.right,
                    right: self.right,
                })),
            }),
    {
        let ghost left0 = *left;
        let ghost sub0 = *sub_right;
        let mut this = self;
        let mut left = left;
        let mut sub_right = sub_right;
        let pcolor = this.color;
        sub_right.color = pcolor;
        this.set_color_black();
        left.right = Some(sub_right);
        let left = left.left_rorate();
        this.left = Some(left);
        let r = this.right_rorate();
        proof {
            lemma_ms_parts(sub0);
            let low = RedBlackNode {
                color: Color::Black,
                key: left0.key,
                left: left0.left,
                right: sub0.left,
            };
            let high = RedBlackNode {
                color: Color::Black,
                key: self.key,
                left: sub0.right,
                right: self.right,
            };
            assert(*r == (RedBlackNode {
                color: pcolor,
                key: sub0.key,
                left: Some(Box::new(low)),
                right: Some(Box::new(high)),
            }));
            assert(sub0.ms().count(sub0.key) > 0);
            assert(low.balanced() && low.nrr() && low.ordered());
            assert(high.balanced() && high.nrr() && high.ordered());
            assert(low.ms() =~= opt_ms(left0.left).insert(left0.key).add(opt_ms(sub0.left)));
            assert(high.ms() =~= opt_ms(sub0.right).insert(self.key).add(opt_ms(self.right)));
            assert(r.balanced() && r.nrr());
            assert(r.ordered());
            assert(r.ms() =~= opt_ms(left0.left).insert(left0.key).add(sub0.ms()).insert(self.key).add(opt_ms(self.right)));
        }
        r
    }

    /// Deletion repair when the deficiency is on the left, the right
    /// sibling is black and only its left child is red, the mirror of
    /// [`Self::delete_lr`].
    fn delete_rl(self, right: Box<RedBlackNode>, sub_left: Box<RedBlackNode>) -> (r: Box<RedBlackNode>)
        requires
            self.right is None,
            right.left is None,
            right.color is Black,
            sub_left.color is Red,
            sub_left.balanced(),
            sub_left.nrr(),
            sub_left.ordered(),
            opt_wf(right.right),
            opt_wf(self.left),
            opt_color(self.left) is Black,
            sub_left.bh() == opt_bh(right.right),
            opt_bh(self.left) == opt_bh(right.right),
            all_at_most(sub_left.ms(), right.key as int),
            all_at_least(opt_ms(right.right), right.key as int),
            self.key <= right.key,
            all_at_least(sub_left.ms(), self.key as int),
            all_at_least(opt_ms(right.right), self.key as int),
            all_at_most(opt_ms(self.left), self.key as int),
        ensures
            r.balanced(),
            r.nrr(),
            r.ordered(),
            r.color == self.color,
            r.bh() == opt_bh(right.right) + 1 + (if self.color is Black { 1nat } else { 0nat }),
            r.ms() == opt_ms(self.left).insert(self.key).add(sub_left.ms()).insert(right.key).add(opt_ms(right.right)),
            *r == (RedBlackNode {
                color: self.color,
                key: sub_left.key,
                left: Some(Box::new(RedBlackNode {
                    color: Color::Black,
                    key: self.key,
                    left: self.left,
                    right: sub_left.left,
                })),
                right: Some(Box::new(RedBlackNode {
                    color: Color::Black,
                    key: right.key,
                    left: sub_left.right,
                    right: right.right,
                })),
            }),
    {
        let ghost right0 = *right;
        let ghost sub0 = *sub_left;
        let mut this = self;
        let mut right = right;
        let mut sub_left = sub_left;
        let pcolor = this.color;
        sub_left.color = pcolor;
        this.set_color_black();
        right.left = Some(sub_left);
        let right = right.right_rorate();
        this.right = Some(right);
        let r = this.left_rorate();
        proof {
            lemma_ms_parts(sub0);
            let low = RedBlackNode {
                color: Color::Black,
                key: self.key,
                left: self.left,
                right: sub0.left,
            };
            let high = RedBlackNode {
                color: Color::Black,
                key: right0.key,
                left: sub0.right,
                right: right0.right,
            };
            assert(*r == (RedBlackNode {
                color: pcolor,
                key: sub0.key,
                left: Some(Box::new(low)),
                right: Some(Box::new(high)),
            }));
            assert(sub0.ms().count(sub0.key) > 0);
            assert(low.balanced() && low.nrr() && low.ordered());
            assert(high.balanced() && high.nrr() && high.ordered());
            assert(low.ms() =~= opt_ms(self.left).insert(self.key).add(opt_ms(sub0.left)));
            assert(high.ms() =~= opt_ms(sub0.right).insert(right0.key).add(opt_ms(right0.right)));
            assert(r.balanced() && r.nrr());
            assert(r.ordered());
            assert(r.ms() =~= opt_ms(self.left).insert(self.key).add(sub0.ms()).insert(right0.key).add(opt_ms(right0.right)));
        }
        r
    }


    /// One frame of the deletion descent: dispatches on the protocol
    /// state, locating the key or walking to the in-order successor, and
    /// repairs the invariants on the unwind through [`Self::adjust`].
    fn delete(self, state: DeleteState) -> (r: (Option<Box<RedBlackNode>>, DeleteState))
        requires
            self.balanced(),
            self.nrr(),
            self.ordered(),
            state is FindForDeleteNode || state is FindForSuccessor,
        ensures
            state matches DeleteState::FindForDeleteNode(k) ==> delete_post_found(self, k, r),
            state is FindForSuccessor ==> delete_post_succ(self, r),
        decreases self, 1int,
    {
        match state {
            DeleteState::FindForDeleteNode(key) => {
                if self.key == key {
                    self.delete_here(key)
                } else if self.key > key {
                    self.delete_search_left(key)
                } else {
                    self.delete_search_right(key)
                }
            }
            DeleteState::FindForSuccessor => self.delete_successor(),
            _ => unreached(),
        }
    }

    /// The deletion frame whose node holds the sought key: a node with at
    /// most one child is unlinked here; one with two children takes over
    /// its in-order successor's key — the least key of the right subtree,
    /// which [`Self::delete_successor`]'s contract pins exactly — and that
    /// successor node is the one physically unlinked. The repairs on the
    /// unwind may rotate another key to the top of this subtree, so the
    /// contract carries the swap's effect through the key multiset and
    /// the successor's minimality rather than a fixed root key.
    #[verifier::rlimit(100)]
    #[verifier::spinoff_prover]
    fn delete_here(self, key: i32) -> (r: (Option<Box<RedBlackNode>>, DeleteState))
        requires
            self.balanced(),
            self.nrr(),
            self.ordered(),
            self.key == key,
        ensures
            delete_post_found(self, key, r),
        decreases self, 0int,
    {
        let mut this = self;
        match (this.left.take(), this.right.take()) {
                        (Some(left), Some(right)) => {
                            let ghost l0 = *left;
                            let ghost r0 = *right;
                            let (right, st) = (*right).delete(DeleteState::FindForSuccessor);
                            this.left = Some(left);
                            this.right = right;
                            proof {
                                lemma_ms_parts(self);
                                lemma_ms_parts(r0);
                            }
                            let st = match st {
                                DeleteState::Done(Some(skey)) => {
                                    let tmp = this.key;
                                    this.key = skey;
                                    proof {
                                        assert(r0.ms().count(skey) > 0);
                                        assert(self.key as int <= skey as int);
                                        assert(this.balanced() && this.nrr());
                                        assert(this.ordered());
                                        assert(this.bh() == self.bh());
                                        assert(this.ms() =~= self.ms().remove(key));
                                        assert(this.color is Red ==> self.color is Red);
                                    }
                                    DeleteState::Done(Some(tmp))
                                }
                                DeleteState::TryAdjust(node, mut tbd) => {
                                    let ghost tbd0 = *tbd;
                                    let tmp = this.key;
                                    this.key = tbd.key;
                                    tbd.key = tmp;
                                    proof {
                                        assert(tbd.left == tbd0.left && tbd.right == tbd0.right
                                            && tbd.color == tbd0.color);
                                        assert(tbd.key == key && this.key == tbd0.key);
                                        assert(tbd.bh() == tbd0.bh());
                                        assert(r0.ms().count(this.key) > 0);
                                        assert(self.key as int <= this.key as int);
                                        if node is None {
                                            assert(tbd0 == r0);
                                            assert(r0.balanced() && r0.nrr());
                                            assert(tbd.left == r0.left && tbd.right == r0.right
                                                && tbd.color == r0.color);
                                            assert(tbd.balanced());
                                            assert(tbd.nrr());
                                            assert(tbd.left is None);
                                            lemma_low_node(r0);
                                            assert(tbd.color is Black ==> r0.bh() == 1);
                                            assert(tbd.color is Red ==> r0.bh() == 0);
                                            assert(all_at_least(opt_ms(tbd.right), this.key as int));
                                            assert(r0.ms() =~= opt_ms(r0.right).insert(r0.key));
                                        } else {
                                            assert(tbd.left is None && tbd.right is None);
                                            assert(tbd.balanced());
                                            assert(tbd.nrr());
                                            assert(opt_bh(node) + 1 == r0.bh());
                                            assert(opt_ms(node).insert(tbd0.key) == r0.ms());
                                            lemma_insert_part(r0.ms(), opt_ms(node), tbd0.key);
                                            assert(all_at_least(opt_ms(node), this.key as int));
                                        }
                                    }
                                    DeleteState::TryAdjust(node, tbd)
                                }
                                _ => unreached(),
                            };
                            let ghost p0 = this;
                            let ghost st0 = st;
                            proof {
                                if let DeleteState::TryAdjust(w, d) = st0 {
                                    let dv = *d;
                                    assert(dv.balanced() && dv.nrr());
                                    assert(!(dv.left is Some && dv.right is Some));
                                    assert(sib_bh(p0) == opt_bh(p0.left));
                                    assert(opt_bh(p0.left) == r0.bh());
                                    if w is None {
                                        assert(piece_ms(w, dv) =~= opt_ms(dv.right));
                                        assert(all_at_least(piece_ms(w, dv), p0.key as int));
                                    } else {
                                        assert(piece_ms(w, dv) =~= opt_ms(w));
                                        assert(all_at_least(opt_ms(w), p0.key as int));
                                    }
                                    assert(r0.balanced() && r0.nrr() && r0.ordered());
                                    assert(opt_balanced(dv.left) && opt_nrr(dv.left) && opt_ordered(dv.left));
                                    assert(opt_balanced(dv.right) && opt_nrr(dv.right) && opt_ordered(dv.right));
                                    lemma_assemble_pre(p0, w, dv);
                                }
                            }
                            let rr = this.adjust(st);
                            let ghost rr0 = rr;
                            proof {
                                if let DeleteState::TryAdjust(w, d) = st0 {
                                    let dv = *d;
                                    if w is None {
                                        assert(opt_ms(w).add(opt_ms(dv.left)).add(opt_ms(dv.right)) =~= opt_ms(dv.right));
                                        assert(r0.ms() =~= opt_ms(dv.right).insert(p0.key));
                                    } else {
                                        assert(opt_ms(w).insert(p0.key) == r0.ms());
                                    }
                                    assert(adjust_ms(p0, w, dv) =~= self.ms().remove(key));
                                    assert(adjust_h(p0) == self.bh());
                                    match rr0.1 {
                                        DeleteState::Done(opt) => {
                                            assert(delete_post_found(self, key, rr0));
                                        }
                                        DeleteState::TryAdjust(w2, d2) => {
                                            let wb = *w2.unwrap();
                                            assert(wb.ms() == self.ms().remove(key));
                                            assert(opt_ms(w2).insert(key) =~= self.ms());
                                            assert(ta_shape(self, w2, *d2));
                                            assert(delete_post_found(self, key, rr0));
                                        }
                                        _ => {
                                            assert(false);
                                        }
                                    }
                                } else {
                                    assert(delete_post_found(self, key, rr0));
                                }
                            }
                            rr
                        }
                        (left, right) => {
                            this.left = left;
                            this.right = right;
                            proof {
                                lemma_ms_parts(self);
                                assert(this == self);
                                assert(self.ms().count(key) > 0);
                            }
                            (None, DeleteState::TryAdjust(None, Box::new(this)))
                        }
                    }
    }

    /// The deletion descent into the left subtree, for a key below this
    /// node's.
    #[verifier::rlimit(100)]
    #[verifier::spinoff_prover]
    fn delete_search_left(self, key: i32) -> (r: (Option<Box<RedBlackNode>>, DeleteState))
        requires
            self.balanced(),
            self.nrr(),
            self.ordered(),
            self.key > key,
        ensures
            delete_post_found(self, key, r),
        decreases self, 0int,
    {
        let mut this = self;
                    match this.left.take() {
                        Some(left) => {
                            let ghost l0 = *left;
                            let (left, st) = (*left).delete(DeleteState::FindForDeleteNode(key));
                            this.left = left;
                            let ghost p0 = this;
                            let ghost st0 = st;
                            proof {
                                lemma_ms_parts(self);
                                lemma_ms_parts(l0);
                                if let DeleteState::TryAdjust(w, d) = st0 {
                                    let dv = *d;
                                    assert(dv.balanced() && dv.nrr());
                                    lemma_low_node(dv);
                                    assert(sib_bh(p0) == opt_bh(p0.right));
                                    assert(opt_bh(p0.right) == l0.bh());
                                    if w is None {
                                        assert(dv == l0);
                                        assert(dv.color is Black ==> l0.bh() == 1);
                                        assert(dv.color is Red ==> l0.bh() == 0);
                                        assert(all_at_most(piece_ms(w, dv), p0.key as int));
                                    } else {
                                        assert(opt_bh(w) + 1 == l0.bh());
                                        assert(opt_ms(w).insert(dv.key) == l0.ms());
                                        lemma_insert_part(l0.ms(), opt_ms(w), dv.key);
                                        assert(piece_ms(w, dv) =~= opt_ms(w));
                                        assert(all_at_most(opt_ms(w), p0.key as int));
                                    }
                                    assert(l0.balanced() && l0.nrr() && l0.ordered());
                                    assert(opt_balanced(dv.left) && opt_nrr(dv.left) && opt_ordered(dv.left));
                                    assert(opt_balanced(dv.right) && opt_nrr(dv.right) && opt_ordered(dv.right));
                                    lemma_assemble_pre(p0, w, dv);
                                }
                            }
                            let rr = this.adjust(st);
                            let ghost rr0 = rr;
                            proof {
                                assert(opt_ms(self.right).count(key) == 0);
                                match st0 {
                                    DeleteState::TryAdjust(w, d) => {
                                        let dv = *d;
                                        assert(adjust_ms(p0, w, dv) =~= self.ms().remove(key));
                                        assert(adjust_h(p0) == self.bh());
                                        match rr0.1 {
                                            DeleteState::Done(opt) => {
                                                assert(delete_post_found(self, key, rr0));
                                            }
                                            DeleteState::TryAdjust(w2, d2) => {
                                                let wb = *w2.unwrap();
                                                assert(wb.ms() == self.ms().remove(key));
                                                assert(opt_ms(w2).insert(key) =~= self.ms());
                                                assert(ta_shape(self, w2, *d2));
                                                assert(delete_post_found(self, key, rr0));
                                            }
                                            _ => {
                                                assert(false);
                                            }
                                        }
                                    }
                                    DeleteState::Done(opt) => {
                                        let b = *rr0.0.unwrap();
                                        assert(b == p0);
                                        if opt is Some {
                                            assert(p0.balanced() && p0.nrr());
                                            assert(p0.ordered());
                                            assert(p0.bh() == self.bh());
                                            assert(p0.ms() =~= self.ms().remove(key));
                                            assert(self.ms().count(key) > 0);
                                        } else {
                                            assert(p0 == self);
                                            assert(self.ms().count(key) == 0);
                                        }
                                        assert(delete_post_found(self, key, rr0));
                                    }
                                    _ => {
                                        assert(false);
                                    }
                                }
                            }
                            rr
                        }
                        None => {
                            proof {
                                assert(opt_ms(self.right).count(key) == 0);
                                assert(self.ms().count(key) == 0);
                                assert(this == self);
                            }
                            (Some(Box::new(this)), DeleteState::Done(None))
                        }
                    }
    }

    /// The deletion descent into the right subtree, for a key not below
    /// this node's.
    #[verifier::rlimit(100)]
    #[verifier::spinoff_prover]
    fn delete_search_right(self, key: i32) -> (r: (Option<Box<RedBlackNode>>, DeleteState))
        requires
            self.balanced(),
            self.nrr(),
            self.ordered(),
            self.key < key,
        ensures
            delete_post_found(self, key, r),
        decreases self, 0int,
    {
        let mut this = self;
                    match this.right.take() {
                        Some(right) => {
                            let ghost r0 = *right;
                            let (right, st) = (*right).delete(DeleteState::FindForDeleteNode(key));
                            this.right = right;
                            let ghost p0 = this;
                            let ghost st0 = st;
                            proof {
                                lemma_ms_parts(self);
                                lemma_ms_parts(r0);
                                if let DeleteState::TryAdjust(w, d) = st0 {
                                    let dv = *d;
                                    assert(dv.balanced() && dv.nrr());
                                    lemma_low_node(dv);
                                    assert(sib_bh(p0) == opt_bh(p0.left));
                                    assert(opt_bh(p0.left) == r0.bh());
                                    if w is None {
                                        assert(dv == r0);
                                        assert(dv.color is Black ==> r0.bh() == 1);
                                        assert(dv.color is Red ==> r0.bh() == 0);
                                        assert(all_at_least(piece_ms(w, dv), p0.key as int));
                                    } else {
                                        assert(opt_bh(w) + 1 == r0.bh());
                                        assert(opt_ms(w).insert(dv.key) == r0.ms());
                                        lemma_insert_part(r0.ms(), opt_ms(w), dv.key);
                                        assert(piece_ms(w, dv) =~= opt_ms(w));
                                        assert(all_at_least(opt_ms(w), p0.key as int));
                                    }
                                    assert(r0.balanced() && r0.nrr() && r0.ordered());
                                    assert(opt_balanced(dv.left) && opt_nrr(dv.left) && opt_ordered(dv.left));
                                    assert(opt_balanced(dv.right) && opt_nrr(dv.right) && opt_ordered(dv.right));
                                    lemma_assemble_pre(p0, w, dv);
                                }
                            }
                            let rr = this.adjust(st);
                            let ghost rr0 = rr;
                            proof {
                                assert(opt_ms(self.left).count(key) == 0);
                                match st0 {
                                    DeleteState::TryAdjust(w, d) => {
                                        let dv = *d;
                                        assert(adjust_ms(p0, w, dv) =~= self.ms().remove(key));
                                        assert(adjust_h(p0) == self.bh());
                                        match rr0.1 {
                                            DeleteState::Done(opt) => {
                                                assert(delete_post_found(self, key, rr0));
                                            }
                                            DeleteState::TryAdjust(w2, d2) => {
                                                let wb = *w2.unwrap();
                                                assert(wb.ms() == self.ms().remove(key));
                                                assert(opt_ms(w2).insert(key) =~= self.ms());
                                                assert(ta_shape(self, w2, *d2));
                                                assert(delete_post_found(self, key, rr0));
                                            }
                                            _ => {
                                                assert(false);
                                            }
                                        }
                                    }
                                    DeleteState::Done(opt) => {
                                        let b = *rr0.0.unwrap();
                                        assert(b == p0);
                                        if opt is Some {
                                            assert(p0.balanced() && p0.nrr());
                                            assert(p0.ordered());
                                            assert(p0.bh() == self.bh());
                                            assert(p0.ms() =~= self.ms().remove(key));
                                            assert(self.ms().count(key) > 0);
                                        } else {
                                            assert(p0 == self);
                                            assert(self.ms().count(key) == 0);
                                        }
                                        assert(delete_post_found(self, key, rr0));
                                    }
                                    _ => {
                                        assert(false);
                                    }
                                }
                            }
                            rr
                        }
                        None => {
                            proof {
                                assert(opt_ms(self.left).count(key) == 0);
                                assert(self.ms().count(key) == 0);
                                assert(this == self);
                            }
                            (Some(Box::new(this)), DeleteState::Done(None))
                        }
                    }
    }

    /// The walk to the leftmost node of this subtree, which is unlinked
    /// and bubbled up so that the node above can take over its key.
    #[verifier::rlimit(100)]
    #[verifier::spinoff_prover]
    fn delete_successor(self) -> (r: (Option<Box<RedBlackNode>>, DeleteState))
        requires
            self.balanced(),
            self.nrr(),
            self.ordered(),
        ensures
            delete_post_succ(self, r),
        decreases self, 0int,
    {
        let mut this = self;
        match this.left.take() {
                    Some(left) => {
                        let ghost l0 = *left;
                        let (left, st) = (*left).delete(DeleteState::FindForSuccessor);
                        this.left = left;
                        let ghost p0 = this;
                        let ghost st0 = st;
                        proof {
                            lemma_ms_parts(self);
                            lemma_ms_parts(l0);
                            if let DeleteState::TryAdjust(w, d) = st0 {
                                let dv = *d;
                                assert(dv.balanced() && dv.nrr());
                                lemma_low_node(dv);
                                assert(sib_bh(p0) == opt_bh(p0.right));
                                assert(opt_bh(p0.right) == l0.bh());
                                if w is None {
                                    assert(dv == l0);
                                    assert(dv.color is Black ==> l0.bh() == 1);
                                    assert(dv.color is Red ==> l0.bh() == 0);
                                    assert(all_at_most(piece_ms(w, dv), p0.key as int));
                                } else {
                                    assert(opt_bh(w) + 1 == l0.bh());
                                    assert(opt_ms(w).insert(dv.key) == l0.ms());
                                    lemma_insert_part(l0.ms(), opt_ms(w), dv.key);
                                    assert(piece_ms(w, dv) =~= opt_ms(w));
                                    assert(all_at_most(opt_ms(w), p0.key as int));
                                }
                                assert(l0.balanced() && l0.nrr() && l0.ordered());
                                assert(opt_balanced(dv.left) && opt_nrr(dv.left) && opt_ordered(dv.left));
                                assert(opt_balanced(dv.right) && opt_nrr(dv.right) && opt_ordered(dv.right));
                                lemma_assemble_pre(p0, w, dv);
                            }
                        }
                        let rr = this.adjust(st);
                        let ghost rr0 = rr;
                        proof {
                            match st0 {
                                DeleteState::TryAdjust(w, d) => {
                                    let dv = *d;
                                    let skey = dv.key;
                                    assert(l0.ms().count(skey) > 0);
                                    assert(all_at_least(l0.ms(), skey as int));
                                    assert(self.ms().count(skey) > 0);
                                    assert(all_at_least(self.ms(), skey as int));
                                    assert(adjust_ms(p0, w, dv) =~= self.ms().remove(skey));
                                    assert(adjust_h(p0) == self.bh());
                                    match rr0.1 {
                                        DeleteState::Done(opt) => {
                                            assert(delete_post_succ(self, rr0));
                                        }
                                        DeleteState::TryAdjust(w2, d2) => {
                                            let wb = *w2.unwrap();
                                            assert(wb.ms() == self.ms().remove(skey));
                                            assert(opt_ms(w2).insert(skey) =~= self.ms());
                                            assert(ta_shape(self, w2, *d2));
                                            assert(delete_post_succ(self, rr0));
                                        }
                                        _ => {
                                            assert(false);
                                        }
                                    }
                                }
                                DeleteState::Done(opt) => {
                                    let b = *rr0.0.unwrap();
                                    assert(b == p0);
                                    let skey = opt.unwrap();
                                    assert(l0.ms().count(skey) > 0);
                                    assert(all_at_least(l0.ms(), skey as int));
                                    assert(self.ms().count(skey) > 0);
                                    assert(all_at_least(self.ms(), skey as int));
                                    assert(p0.balanced() && p0.nrr());
                                    assert(p0.ordered());
                                    assert(p0.bh() == self.bh());
                                    assert(p0.ms() =~= self.ms().remove(skey));
                                    assert(delete_post_succ(self, rr0));
                                }
                                _ => {
                                    assert(false);
                                }
                            }
                        }
                        rr
                    }
                    None => {
                        proof {
                            lemma_ms_parts(self);
                            assert(this == self);
                            assert(all_at_least(self.ms(), self.key as int));
                        }
                        (None, DeleteState::TryAdjust(None, Box::new(this)))
                    }
                }
    }

    /// Resolves a missing black on the empty side of this node, whose
    /// removed node was black and childless: absorbs a red among the
    /// sibling's children by rotation, recolours, or passes the deficiency
    /// on. A red sibling is first rotated into the parent position and the
    /// repair re-run against the new black sibling.
    #[verifier::rlimit(100)]
    fn resolve_deficit(self, node: Option<Box<RedBlackNode>>, to_be_deleted: Box<RedBlackNode>) -> (r: (Option<Box<RedBlackNode>>, DeleteState))
        requires
            adjust_pre(self, node, *to_be_deleted),
            to_be_deleted.left is None,
            to_be_deleted.right is None,
            to_be_deleted.color is Black,
        ensures
            case_c_applies(self) ==> (self.color is Red ==> r.0 == Some(
                Box::new(case_c_rebuilt(self, node)),
            ) && r.1 == DeleteState::Done(Some(to_be_deleted.key))) && (self.color is Black
                ==> r.0 is None && r.1 == DeleteState::TryAdjust(
                Some(Box::new(case_c_rebuilt(self, node))),
                to_be_deleted,
            )),
            (match r.1 {
                DeleteState::Done(opt) => opt == Some(to_be_deleted.key) && (match r.0 {
                    Some(b) => {
                        &&& b.balanced()
                        &&& b.nrr()
                        &&& b.ordered()
                        &&& b.bh() == adjust_h(self)
                        &&& b.ms() == adjust_ms(self, node, *to_be_deleted)
                        &&& b.color is Red ==> self.color is Red
                    }
                    None => false,
                }),
                DeleteState::TryAdjust(w2, d2) => {
                    &&& r.0 is None
                    &&& d2 == to_be_deleted
                    &&& d2.left is None && d2.right is None && d2.color is Black
                    &&& (match w2 {
                        Some(wb) => {
                            &&& wb.balanced()
                            &&& wb.nrr()
                            &&& wb.ordered()
                            &&& wb.color is Black
                            &&& wb.bh() + 1 == adjust_h(self)
                            &&& wb.ms() == adjust_ms(self, node, *to_be_deleted)
                        }
                        None => false,
                    })
                    &&& adjust_h(self) >= 1
                    &&& self.color is Black
                }
                _ => false,
            }),
        decreases (if self.color is Red { 0int } else { 1int }), 0int,
    {
        let mut this = self;
        let to_be_deleted = to_be_deleted;
        let ghost d0 = *to_be_deleted;
        let ghost w0 = node;
        match (this.left.take(), this.right.take()) {
                                (Some(mut left), None) => {
                                    let ghost sib0 = *left;
                                    proof {
                                        lemma_ms_parts(sib0);
                                        assert(sib0.balanced() && sib0.nrr() && sib0.ordered());
                                        assert(sib0.bh() == sib_bh(self));
                                        assert(sib0.ms().count(sib0.key) > 0);
                                        assert(sib0.key <= self.key);
                                        assert(piece_ms(w0, d0) =~= opt_ms(w0));
                                        assert(all_at_least(opt_ms(w0), self.key as int));
                                    }
                                    match left.color {
                                        Color::Black => match (left.left.take(), left.right.take()) {
                                            (Some(sub_left), sub_right) if sub_left.color == Color::Red => {
                                                this.right = node;
                                                left.right = sub_right;
                                                let root = this.delete_ll(left, sub_left);
                                                proof {
                                                    assert(root.ms() =~= adjust_ms(self, w0, d0));
                                                    assert(root.bh() == adjust_h(self));
                                                }
                                                (Some(root), DeleteState::Done(Some(to_be_deleted.key)))
                                            }
                                            (sub_left, Some(sub_right)) if sub_right.color == Color::Red => {
                                                this.right = node;
                                                left.left = sub_left;
                                                let root = this.delete_lr(left, sub_right);
                                                proof {
                                                    assert(root.ms() =~= adjust_ms(self, w0, d0));
                                                    assert(root.bh() == adjust_h(self));
                                                }
                                                (Some(root), DeleteState::Done(Some(to_be_deleted.key)))
                                            }
                                            (sub_left, sub_right) => {
                                                left.set_color_red();
                                                left.left = sub_left;
                                                left.right = sub_right;
                                                this.right = node;
                                                this.left = Some(left);
                                                proof {
                                                    assert(this.left.unwrap().balanced());
                                                    assert(this.left.unwrap().nrr());
                                                    assert(this.left.unwrap().ordered());
                                                    assert(this.left.unwrap().ms() =~= sib0.ms());
                                                    assert(this.ms() =~= adjust_ms(self, w0, d0));
                                                    assert(this.balanced() && this.ordered());
                                                    assert(case_c_applies(self));
                                                    assert(this.left == case_c_rebuilt(self, w0).left);
                                                    assert(this.right == case_c_rebuilt(self, w0).right);
                                                }
                                                match this.color {
                                                    Color::Red => {
                                                        this.set_color_black();
                                                        proof {
                                                            assert(this == case_c_rebuilt(self, w0));
                                                            assert(this.nrr());
                                                            assert(this.ms() =~= adjust_ms(self, w0, d0));
                                                            assert(this.bh() == adjust_h(self));
                                                        }
                                                        (Some(Box::new(this)), DeleteState::Done(Some(to_be_deleted.key)))
                                                    }
                                                    Color::Black => {
                                                        proof {
                                                            assert(this == case_c_rebuilt(self, w0));
                                                            assert(this.nrr());
                                                            assert(this.bh() + 1 == adjust_h(self));
                                                        }
                                                        (None, DeleteState::TryAdjust(Some(Box::new(this)), to_be_deleted))
                                                    }
                                                }
                                            }
                                        },
                                        Color::Red => {
                                            this.change_color();
                                            left.change_color();
                                            this.left = left.right.take();
                                            proof {
                                                assert(opt_wf(sib0.right) && opt_wf(sib0.left));
                                                assert(opt_color(sib0.left) is Black && opt_color(sib0.right) is Black);
                                                assert(opt_bh(sib0.right) == sib0.bh());
                                                assert(sib_bh(this) == opt_bh(sib0.right));
                                                assert(adjust_pre(this, w0, d0));
                                            }
                                            let ghost inner = this;
                                            let (root, state2) = this.adjust(DeleteState::TryAdjust(node, to_be_deleted));
                                            match &state2 {
                                                DeleteState::TryAdjust(_, _) => unreached(),
                                                DeleteState::Done(_) => {
                                                    left.right = root;
                                                    proof {
                                                        let b2 = *root.unwrap();
                                                        assert(b2.ms() == adjust_ms(inner, w0, d0));
                                                        assert(b2.bh() == adjust_h(inner));
                                                        assert(left.ms() =~= adjust_ms(self, w0, d0));
                                                        assert(left.balanced() && left.nrr());
                                                        assert(left.ordered());
                                                        assert(left.bh() == adjust_h(self));
                                                    }
                                                    (Some(left), state2)
                                                }
                                                _ => unreached(),
                                            }
                                        }
                                    }
                                }
                                (None, Some(mut right)) => {
                                    let ghost sib0 = *right;
                                    proof {
                                        lemma_ms_parts(sib0);
                                        assert(sib0.balanced() && sib0.nrr() && sib0.ordered());
                                        assert(sib0.bh() == sib_bh(self));
                                        assert(sib0.ms().count(sib0.key) > 0);
                                        assert(self.key <= sib0.key);
                                        assert(piece_ms(w0, d0) =~= opt_ms(w0));
                                        assert(all_at_most(opt_ms(w0), self.key as int));
                                    }
                                    match right.color {
                                        Color::Black => match (right.left.take(), right.right.take()) {
                                            (sub_left, Some(sub_right)) if sub_right.color == Color::Red => {
                                                this.left = node;
                                                right.left = sub_left;
                                                let root = this.delete_rr(right, sub_right);
                                                proof {
                                                    assert(root.ms() =~= adjust_ms(self, w0, d0));
                                                    assert(root.bh() == adjust_h(self));
                                                }
                                                (Some(root), DeleteState::Done(Some(to_be_deleted.key)))
                                            }
                                            (Some(sub_left), sub_right) if sub_left.color == Color::Red => {
                                                this.left = node;
                                                right.right = sub_right;
                                                let root = this.delete_rl(right, sub_left);
                                                proof {
                                                    assert(root.ms() =~= adjust_ms(self, w0, d0));
                                                    assert(root.bh() == adjust_h(self));
                                                }
                                                (Some(root), DeleteState::Done(Some(to_be_deleted.key)))
                                            }
                                            (sub_left, sub_right) => {
                                                right.set_color_red();
                                                right.left = sub_left;
                                                right.right = sub_right;
                                                this.left = node;
                                                this.right = Some(right);
                                                proof {
                                                    assert(this.right.unwrap().balanced());
                                                    assert(this.right.unwrap().nrr());
                                                    assert(this.right.unwrap().ordered());
                                                    assert(this.right.unwrap().ms() =~= sib0.ms());
                                                    assert(this.ms() =~= adjust_ms(self, w0, d0));
                                                    assert(this.balanced() && this.ordered());
                                                    assert(case_c_applies(self));
                                                    assert(this.left == case_c_rebuilt(self, w0).left);
                                                    assert(this.right == case_c_rebuilt(self, w0).right);
                                                }
                                                match this.color {
                                                    Color::Red => {
                                                        this.set_color_black();
                                                        proof {
                                                            assert(this == case_c_rebuilt(self, w0));
                                                            assert(this.nrr());
                                                            assert(this.ms() =~= adjust_ms(self, w0, d0));
                                                            assert(this.bh() == adjust_h(self));
                                                        }
                                                        (Some(Box::new(this)), DeleteState::Done(Some(to_be_deleted.key)))
                                                    }
                                                    Color::Black => {
                                                        proof {
                                                            assert(this == case_c_rebuilt(self, w0));
                                                            assert(this.nrr());
                                                            assert(this.bh() + 1 == adjust_h(self));
                                                        }
                                                        (None, DeleteState::TryAdjust(Some(Box::new(this)), to_be_deleted))
                                                    }
                                                }
                                            }
                                        },
                                        Color::Red => {
                                            this.change_color();
                                            right.change_color();
                                            this.right = right.left.take();
                                            proof {
                                                assert(opt_wf(sib0.right) && opt_wf(sib0.left));
                                                assert(opt_color(sib0.left) is Black && opt_color(sib0.right) is Black);
                                                assert(opt_bh(sib0.left) == sib0.bh());
                                                assert(sib_bh(this) == opt_bh(sib0.left));
                                                assert(adjust_pre(this, w0, d0));
                                            }
                                            let ghost inner = this;
                                            let (root, state2) = this.adjust(DeleteState::TryAdjust(node, to_be_deleted));
                                            match &state2 {
                                                DeleteState::TryAdjust(_, _) => unreached(),
                                                DeleteState::Done(_) => {
                                                    right.left = root;
                                                    proof {
                                                        let b2 = *root.unwrap();
                                                        assert(b2.ms() == adjust_ms(inner, w0, d0));
                                                        assert(b2.bh() == adjust_h(inner));
                                                        assert(right.ms() =~= adjust_ms(self, w0, d0));
                                                        assert(right.balanced() && right.nrr());
                                                        assert(right.ordered());
                                                        assert(right.bh() == adjust_h(self));
                                                    }
                                                    (Some(right), state2)
                                                }
                                                _ => unreached(),
                                            }
                                        }
                                    }
                                }
                                _ => unreached(),
                            }
    }

    /// Resolves a pending deletion adjustment at this node: promotes the
    /// removed node's lone child, absorbs the missing black with a
    /// rotation or recolouring, or passes the deficiency one level up.
    /// A `Done` state travels through unchanged.
    #[verifier::rlimit(100)]
    fn adjust(self, state: DeleteState) -> (r: (Option<Box<RedBlackNode>>, DeleteState))
        requires
            state is Done || state is TryAdjust,
            state matches DeleteState::TryAdjust(w, d) ==> adjust_pre(self, w, *d),
        ensures
            state matches DeleteState::Done(opt) ==> r.1 == state && (match r.0 {
                Some(b) => *b == self,
                None => false,
            }),
            state matches DeleteState::TryAdjust(w, d) ==> ((d.color is Red && d.left is None
                && d.right is None) ==> r.1 == DeleteState::Done(Some(d.key)) && (match r.0 {
                Some(b) => *b == self,
                None => false,
            })),
            state matches DeleteState::TryAdjust(w, d) ==> ((d.color is Black && d.left is None
                && d.right is None && case_c_applies(self)) ==> (self.color is Red ==> r.0
                == Some(Box::new(case_c_rebuilt(self, w))) && r.1 == DeleteState::Done(
                Some(d.key),
            )) && (self.color is Black ==> r.0 is None && r.1 == DeleteState::TryAdjust(
                Some(Box::new(case_c_rebuilt(self, w))),
                d,
            ))),
            state matches DeleteState::TryAdjust(w, d) ==> (match r.1 {
                DeleteState::Done(opt) => opt == Some(d.key) && (match r.0 {
                    Some(b) => {
                        &&& b.balanced()
                        &&& b.nrr()
                        &&& b.ordered()
                        &&& b.bh() == adjust_h(self)
                        &&& b.ms() == adjust_ms(self, w, *d)
                        &&& b.color is Red ==> self.color is Red
                    }
                    None => false,
                }),
                DeleteState::TryAdjust(w2, d2) => {
                    &&& r.0 is None
                    &&& d2 == d
                    &&& d2.left is None && d2.right is None && d2.color is Black
                    &&& (match w2 {
                        Some(wb) => {
                            &&& wb.balanced()
                            &&& wb.nrr()
                            &&& wb.ordered()
                            &&& wb.color is Black
                            &&& wb.bh() + 1 == adjust_h(self)
                            &&& wb.ms() == adjust_ms(self, w, *d)
                        }
                        None => false,
                    })
                    &&& adjust_h(self) >= 1
                    &&& self.color is Black
                }
                _ => false,
            }),
        decreases (if self.color is Red { 0int } else { 1int }), 1int,
    {
        let mut this = self;
        match state {
            DeleteState::TryAdjust(node, to_be_deleted) => {
                let mut to_be_deleted = to_be_deleted;
                let ghost d0 = *to_be_deleted;
                let ghost w0 = node;
                proof {
                    lemma_low_node(d0);
                }
                match (to_be_deleted.left.take(), to_be_deleted.right.take()) {
                    (Some(mut delete_left), None) => {
                        match (this.left.take(), this.right.take()) {
                            (Some(left), None) => {
                                this.left = Some(left);
                                delete_left.set_color_black();
                                this.right = Some(delete_left);
                                proof {
                                    let c = *this.right.unwrap();
                                    assert(c.left is None && c.right is None && c.color is Black);
                                    assert(c.ms() =~= Multiset::empty().insert(c.key));
                                    assert(opt_ms(d0.left) =~= Multiset::empty().insert(c.key));
                                    assert(piece_ms(w0, d0).count(c.key) > 0);
                                    assert(this.ms() =~= adjust_ms(self, w0, d0));
                                    assert(c.balanced() && c.nrr() && c.ordered());
                                    assert(c.bh() == 1);
                                    assert(sib_bh(self) == 1);
                                    assert(this.balanced());
                                    assert(this.nrr());
                                    assert(this.ordered());
                                    assert(this.bh() == adjust_h(self));
                                }
                                (Some(Box::new(this)), DeleteState::Done(Some(to_be_deleted.key)))
                            }
                            (None, Some(right)) => {
                                this.right = Some(right);
                                delete_left.set_color_black();
                                this.left = Some(delete_left);
                                proof {
                                    let c = *this.left.unwrap();
                                    assert(c.left is None && c.right is None && c.color is Black);
                                    assert(c.ms() =~= Multiset::empty().insert(c.key));
                                    assert(opt_ms(d0.left) =~= Multiset::empty().insert(c.key));
                                    assert(piece_ms(w0, d0).count(c.key) > 0);
                                    assert(this.ms() =~= adjust_ms(self, w0, d0));
                                    assert(c.balanced() && c.nrr() && c.ordered());
                                    assert(c.bh() == 1);
                                    assert(sib_bh(self) == 1);
                                    assert(this.balanced());
                                    assert(this.nrr());
                                    assert(this.ordered());
                                    assert(this.bh() == adjust_h(self));
                                }
                                (Some(Box::new(this)), DeleteState::Done(Some(to_be_deleted.key)))
                            }
                            _ => unreached(),
                        }
                    }
                    (None, Some(mut delete_right)) => {
                        match (this.left.take(), this.right.take()) {
                            (Some(left), None) => {
                                this.left = Some(left);
                                delete_right.set_color_black();
                                this.right = Some(delete_right);
                                proof {
                                    let c = *this.right.unwrap();
                                    assert(c.left is None && c.right is None && c.color is Black);
                                    assert(c.ms() =~= Multiset::empty().insert(c.key));
                                    assert(opt_ms(d0.right) =~= Multiset::empty().insert(c.key));
                                    assert(piece_ms(w0, d0).count(c.key) > 0);
                                    assert(this.ms() =~= adjust_ms(self, w0, d0));
                                    assert(c.balanced() && c.nrr() && c.ordered());
                                    assert(c.bh() == 1);
                                    assert(sib_bh(self) == 1);
                                    assert(this.balanced());
                                    assert(this.nrr());
                                    assert(this.ordered());
                                    assert(this.bh() == adjust_h(self));
                                }
                                (Some(Box::new(this)), DeleteState::Done(Some(to_be_deleted.key)))
                            }
                            (None, Some(right)) => {
                                this.right = Some(right);
                                delete_right.set_color_black();
                                this.left = Some(delete_right);
                                proof {
                                    let c = *this.left.unwrap();
                                    assert(c.left is None && c.right is None && c.color is Black);
                                    assert(c.ms() =~= Multiset::empty().insert(c.key));
                                    assert(opt_ms(d0.right) =~= Multiset::empty().insert(c.key));
                                    assert(piece_ms(w0, d0).count(c.key) > 0);
                                    assert(this.ms() =~= adjust_ms(self, w0, d0));
                                    assert(c.balanced() && c.nrr() && c.ordered());
                                    assert(c.bh() == 1);
                                    assert(sib_bh(self) == 1);
                                    assert(this.balanced());
                                    assert(this.nrr());
                                    assert(this.ordered());
                                    assert(this.bh() == adjust_h(self));
                                }
                                (Some(Box::new(this)), DeleteState::Done(Some(to_be_deleted.key)))
                            }
                            _ => unreached(),
                        }
                    }
                    (None, None) => {
                        match to_be_deleted.color {
                            Color::Red => {
                                proof {
                                    assert(d0.color is Red);
                                    assert(d0.bh() == 0);
                                    assert(w0 is None);
                                    assert(this == self);
                                    assert(this.ms() =~= adjust_ms(self, w0, d0));
                                    assert(sib_bh(self) == 0);
                                    assert(this.balanced());
                                    assert(this.nrr() && this.ordered());
                                    assert(this.bh() == adjust_h(self));
                                }
                                (Some(Box::new(this)), DeleteState::Done(Some(to_be_deleted.key)))
                            }
                            Color::Black => {
                                let r = this.resolve_deficit(node, to_be_deleted);
                                r
                            }
                        }
                    }
                    _ => unreached(),
                }
            }
            other => (Some(Box::new(this)), other),
        }
    }

    /// Inserts `key` below this node and repairs the invariants on the
    /// unwind, reporting a [`Direction`] status to the caller. The descent
    /// routes a key not strictly below this node's to the right, so a
    /// duplicate lands right of its equal predecessor — the contract pins
    /// this exactly where the leaf is placed; higher up, the repairs can
    /// move an equal key across, which is why the ordering predicate is
    /// non-strict. The returned subtree keeps the black-height and gains
    /// exactly one copy of `key`; a red-red violation can remain only at
    /// the root, on the side the status names.
    fn append(self, key: i32) -> (r: (Box<RedBlackNode>, Direction))
        requires
            self.wf(),
        ensures
            r.0.balanced(),
            r.0.ordered(),
            r.0.bh() == self.bh(),
            r.0.ms() == self.ms().insert(key),
            r.0.count() == self.count() + 1,
            r.1 is Resolved ==> r.0.nrr() && (r.0.color is Red ==> self.color is Red),
            r.1 is Changed ==> r.0.nrr() && r.0.color is Red && self.color is Black
                && r.0.key == self.key && opt_color(r.0.left) is Black && opt_color(
                r.0.right,
            ) is Black,
            self.left is None && key < self.key ==> r == (
                Box::new(RedBlackNode {
                    color: self.color,
                    key: self.key,
                    left: Some(Box::new(RedBlackNode { color: Color::Red, key, left: None, right: None })),
                    right: self.right,
                }),
                Direction::Left,
            ),
            self.right is None && key >= self.key ==> r == (
                Box::new(RedBlackNode {
                    color: self.color,
                    key: self.key,
                    left: self.left,
                    right: Some(Box::new(RedBlackNode { color: Color::Red, key, left: None, right: None })),
                }),
                Direction::Right,
            ),
            r.1 is Left ==> opt_nrr(r.0.left) && opt_nrr(r.0.right) && opt_color(r.0.left) is Red
                && r.0.color == self.color && (r.0.color is Red ==> opt_color(r.0.right) is Black),
            r.1 is Right ==> opt_nrr(r.0.left) && opt_nrr(r.0.right) && opt_color(r.0.right) is Red
                && r.0.color == self.color && (r.0.color is Red ==> opt_color(r.0.left) is Black),
        decreases self,
    {
        let mut this = self;
        if this.key > key {
            match this.left.take() {
                Some(left) => {
                    let (left, direction) = (*left).append(key);
                    let (_, right_color) = this.get_child_color();
                    match direction {
                        Direction::Left if left.color == Color::Red && right_color == Color::Red => {
                            this.left = Some(left);
                            proof {
                                assert(this.color is Black);
                                assert(this.right is Some);
                                assert(this.right.unwrap().nrr());
                                assert(sub_nrr(this.left) && sub_nrr(this.right));
                                assert(this.balanced());
                            }
                            this.change_color_for_nodes();
                            proof {
                                assert(this.ms() =~= self.ms().insert(key));
                                assert(this.bh() == self.bh());
                                assert(this.nrr());
                                assert(this.color is Red && self.color is Black);
                            }
                            (Box::new(this), Direction::Changed)
                        }
                        Direction::Left if left.color == Color::Red && right_color == Color::Black => {
                            let root = this.append_ll(left);
                            proof {
                                assert(root.ms() =~= self.ms().insert(key));
                                assert(root.bh() == self.bh());
                                assert(root.count() == self.count() + 1);
                            }
                            (root, Direction::Resolved)
                        }
                        Direction::Right if left.color == Color::Red && right_color == Color::Red => {
                            this.left = Some(left);
                            proof {
                                assert(this.color is Black);
                                assert(this.right is Some);
                                assert(this.right.unwrap().nrr());
                                assert(sub_nrr(this.left) && sub_nrr(this.right));
                                assert(this.balanced());
                            }
                            this.change_color_for_nodes();
                            proof {
                                assert(this.ms() =~= self.ms().insert(key));
                                assert(this.bh() == self.bh());
                                assert(this.nrr());
                                assert(this.color is Red && self.color is Black);
                            }
                            (Box::new(this), Direction::Changed)
                        }
                        Direction::Right if left.color == Color::Red && right_color == Color::Black => {
                            let root = this.append_lr(left);
                            proof {
                                assert(root.ms() =~= self.ms().insert(key));
                                assert(root.bh() == self.bh());
                                assert(root.count() == self.count() + 1);
                            }
                            (root, Direction::Resolved)
                        }
                        Direction::Changed => {
                            this.left = Some(left);
                            proof {
                                assert(this.ms() =~= self.ms().insert(key));
                                assert(opt_nrr(this.left) && opt_nrr(this.right));
                                assert(opt_color(this.left) is Red);
                            }
                            (Box::new(this), Direction::Left)
                        }
                        _ => {
                            this.left = Some(left);
                            proof {
                                assert(this.ms() =~= self.ms().insert(key));
                                assert(opt_nrr(this.right));
                                assert(left.nrr());
                                assert(opt_nrr(this.left));
                                assert(this.nrr());
                                assert(this.color is Red ==> self.color is Red);
                            }
                            (Box::new(this), Direction::Resolved)
                        }
                    }
                }
                None => {
                    this.left = Some(Box::new(RedBlackNode::from(key)));
                    proof {
                        assert(this.ms() =~= self.ms().insert(key));
                    }
                    (Box::new(this), Direction::Left)
                }
            }
        } else {
            match this.right.take() {
                Some(right) => {
                    let (right, direction) = (*right).append(key);
                    let (left_color, _) = this.get_child_color();
                    match direction {
                        Direction::Left if right.color == Color::Red && left_color == Color::Red => {
                            this.right = Some(right);
                            proof {
                                assert(this.color is Black);
                                assert(this.left is Some);
                                assert(this.left.unwrap().nrr());
                                assert(sub_nrr(this.left) && sub_nrr(this.right));
                                assert(this.balanced());
                            }
                            this.change_color_for_nodes();
                            proof {
                                assert(this.ms() =~= self.ms().insert(key));
                                assert(this.bh() == self.bh());
                                assert(this.nrr());
                                assert(this.color is Red && self.color is Black);
                            }
                            (Box::new(this), Direction::Changed)
                        }
                        Direction::Left if right.color == Color::Red && left_color == Color::Black => {
                            let root = this.append_rl(right);
                            proof {
                                assert(root.ms() =~= self.ms().insert(key));
                                assert(root.bh() == self.bh());
                                assert(root.count() == self.count() + 1);
                            }
                            (root, Direction::Resolved)
                        }
                        Direction::Right if right.color == Color::Red && left_color == Color::Red => {
                            this.right = Some(right);
                            proof {
                                assert(this.color is Black);
                                assert(this.left is Some);
                                assert(this.left.unwrap().nrr());
                                assert(sub_nrr(this.left) && sub_nrr(this.right));
                                assert(this.balanced());
                            }
                            this.change_color_for_nodes();
                            proof {
                                assert(this.ms() =~= self.ms().insert(key));
                                assert(this.bh() == self.bh());
                                assert(this.nrr());
                                assert(this.color is Red && self.color is Black);
                            }
                            (Box::new(this), Direction::Changed)
                        }
                        Direction::Right if right.color == Color::Red && left_color == Color::Black => {
                            let root = this.append_rr(right);
                            proof {
                                assert(root.ms() =~= self.ms().insert(key));
                                assert(root.bh() == self.bh());
                                assert(root.count() == self.count() + 1);
                            }
                            (root, Direction::Resolved)
                        }
                        Direction::Changed => {
                            this.right = Some(right);
                            proof {
                                assert(this.ms() =~= self.ms().insert(key));
                                assert(opt_nrr(this.left) && opt_nrr(this.right));
                                assert(opt_color(this.right) is Red);
                            }
                            (Box::new(this), Direction::Right)
                        }
                        _ => {
                            this.right = Some(right);
                            proof {
                                assert(this.ms() =~= self.ms().insert(key));
                                assert(opt_nrr(this.left));
                                assert(right.nrr());
                                assert(opt_nrr(this.right));
                                assert(this.nrr());
                                assert(this.color is Red ==> self.color is Red);
                            }
                            (Box::new(this), Direction::Resolved)
                        }
                    }
                }
                None => {
                    this.right = Some(Box::new(RedBlackNode::from(key)));
                    proof {
                        assert(this.ms() =~= self.ms().insert(key));
                    }
                    (Box::new(this), Direction::Right)
                }
            }
        }
    }
}



} // verus!
