//! Classic data structures and algorithms, verified with Verus.
//!
//! The centrepiece is the red-black tree in [`red_black_tree`], whose
//! insertion and deletion rebalancing protocol is proved to preserve the
//! red-black invariants: a black root, no red node with a red child, equal
//! black depth on every root-to-leaf path, ordered keys, and an accurate
//! element count.

pub mod bit;
pub mod bitmap;
pub mod doubly_link_list;
pub mod heap;
pub mod node;
pub mod queue;
pub mod red_black_tree;
pub mod singly_link_list;
pub mod single_pattern_match;
pub mod sort;
pub mod tire;
pub mod union_find_set;
pub mod stack;
