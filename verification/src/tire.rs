//! A trie keyed by characters: each stored word is a path, with a count
//! of how many times the word was inserted at its final node.

use vstd::prelude::*;

use crate::node::TireNode;

verus! {

use vstd::string::StringSliceAdditionalSpecFns;
use vstd::std_specs::iter::IteratorSpec;

/// Relies on `String::push`: appends exactly one character at the end.
pub assume_specification[ String::push ](s: &mut String, c: char)
    ensures
        final(s)@ == old(s)@.push(c),
;

/// `w` starts with the prefix `p`.
pub open spec fn extends(w: Seq<char>, p: Seq<char>) -> bool {
    w.len() >= p.len() && w.subrange(0, p.len() as int) == p
}

/// The child labelled `c` among `cs`, by first match.
pub open spec fn find_child(cs: Seq<(char, Box<TireNode<char>>)>, c: char) -> Option<
    Box<TireNode<char>>,
>
    decreases cs.len(),
{
    if cs.len() <= 0 {
        None
    } else if cs[0].0 == c {
        Some(cs[0].1)
    } else {
        find_child(cs.drop_first(), c)
    }
}

/// How many times the word `w` is stored below the children `cs`.
pub open spec fn stored(cs: Seq<(char, Box<TireNode<char>>)>, w: Seq<char>) -> nat
    decreases w.len(),
{
    if w.len() <= 0 {
        0
    } else {
        match find_child(cs, w[0]) {
            None => 0,
            Some(n) => if w.len() == 1 {
                n.count as nat
            } else {
                stored(n.next@, w.drop_first())
            },
        }
    }
}

/// Every label occurs at most once at every level.
pub open spec fn labels_distinct(cs: Seq<(char, Box<TireNode<char>>)>) -> bool {
    forall|i: int, j: int| 0 <= i < j < cs.len() ==> (#[trigger] cs[i]).0 != (#[trigger] cs[j]).0
}

/// The distinct-labels discipline, at this level and every level below.
pub open spec fn children_wf(cs: Seq<(char, Box<TireNode<char>>)>) -> bool
    decreases cs,
{
    &&& labels_distinct(cs)
    &&& forall|i: int| 0 <= i < cs.len() ==> children_wf((#[trigger] cs[i]).1.next@)
}

/// No node is empty: every node either ends a stored word or leads to
/// one further down. Deletion prunes nodes it empties, keeping this.
pub open spec fn pruned(cs: Seq<(char, Box<TireNode<char>>)>) -> bool
    decreases cs,
{
    forall|i: int| 0 <= i < cs.len() ==> ((#[trigger] cs[i]).1.count > 0 || cs[i].1.next@.len()
        > 0) && pruned(cs[i].1.next@)
}

/// A chain that stores something is not empty.
proof fn lemma_stored_nonempty(cs: Seq<(char, Box<TireNode<char>>)>, w: Seq<char>)
    requires
        stored(cs, w) > 0,
    ensures
        cs.len() > 0,
{
}


/// A pure mirror of a trie's structure: the counts and the labelled
/// children, with no containers left opaque. Two tries with equal shapes
/// agree on everything their fields expose.
#[verifier::ext_equal]
pub struct TrieShape {
    pub count: nat,
    pub next: Seq<(char, TrieShape)>,
}

/// The shapes of the children from position `i` on.
pub open spec fn shapes_from(cs: Seq<(char, Box<TireNode<char>>)>, i: int) -> Seq<
    (char, TrieShape),
>
    decreases cs, cs.len() - i,
{
    if i < 0 || i >= cs.len() {
        Seq::empty()
    } else {
        seq![
            (
                cs[i].0,
                TrieShape { count: cs[i].1.count as nat, next: shapes_from(cs[i].1.next@, 0) },
            ),
        ] + shapes_from(cs, i + 1)
    }
}

/// The shape of a whole child list.
pub open spec fn shape_of(cs: Seq<(char, Box<TireNode<char>>)>) -> Seq<(char, TrieShape)> {
    shapes_from(cs, 0)
}

/// Child lists of the same length whose entries agree — the one possibly
/// replaced entry agreeing in label, count and child shape — have the
/// same shape.
proof fn lemma_shapes_update(
    cs1: Seq<(char, Box<TireNode<char>>)>,
    cs2: Seq<(char, Box<TireNode<char>>)>,
    i: int,
    k: int,
)
    requires
        cs2.len() == cs1.len(),
        0 <= i < cs1.len(),
        forall|j: int| 0 <= j < cs1.len() && j != i ==> cs2[j] == cs1[j],
        cs2[i].0 == cs1[i].0,
        cs2[i].1.count == cs1[i].1.count,
        shape_of(cs2[i].1.next@) == shape_of(cs1[i].1.next@),
        0 <= k <= cs1.len(),
    ensures
        shapes_from(cs2, k) == shapes_from(cs1, k),
    decreases cs1.len() - k,
{
    if k < cs1.len() {
        lemma_shapes_update(cs1, cs2, i, k + 1);
        if k == i {
            assert(TrieShape {
                count: cs2[k].1.count as nat,
                next: shapes_from(cs2[k].1.next@, 0),
            } == TrieShape { count: cs1[k].1.count as nat, next: shapes_from(cs1[k].1.next@, 0) });
        }
    }
}

/// Two child lists that differ at most in the subtree of one label agree
/// on every lookup of a different label.
proof fn lemma_find_other(
    cs1: Seq<(char, Box<TireNode<char>>)>,
    cs2: Seq<(char, Box<TireNode<char>>)>,
    i: int,
    c: char,
)
    requires
        0 <= i < cs1.len(),
        cs2.len() == cs1.len(),
        cs2[i].0 == cs1[i].0,
        forall|j: int| 0 <= j < cs1.len() && j != i ==> cs2[j] == cs1[j],
        c != cs1[i].0,
    ensures
        find_child(cs2, c) == find_child(cs1, c),
    decreases cs1.len(),
{
    if cs1.len() > 0 {
        if cs1[0].0 == c {
        } else {
            if i == 0 {
                assert(cs2.drop_first() =~= cs1.drop_first());
            } else {
                lemma_find_other(cs1.drop_first(), cs2.drop_first(), i - 1, c);
            }
        }
    }
}

/// A lookup lands on the first entry with the sought label.
proof fn lemma_find_at(cs: Seq<(char, Box<TireNode<char>>)>, i: int)
    requires
        0 <= i < cs.len(),
        forall|j: int| 0 <= j < i ==> (#[trigger] cs[j]).0 != cs[i].0,
    ensures
        find_child(cs, cs[i].0) == Some(cs[i].1),
    decreases i,
{
    if i > 0 {
        lemma_find_at(cs.drop_first(), i - 1);
    }
}

/// When no entry carries the label, the lookup is empty.
proof fn lemma_find_none(cs: Seq<(char, Box<TireNode<char>>)>, c: char)
    requires
        forall|j: int| 0 <= j < cs.len() ==> (#[trigger] cs[j]).0 != c,
    ensures
        find_child(cs, c) is None,
    decreases cs.len(),
{
    if cs.len() > 0 {
        lemma_find_none(cs.drop_first(), c);
    }
}

/// Removing the entry at one position leaves lookups of other labels
/// unchanged.
proof fn lemma_find_after_remove(cs: Seq<(char, Box<TireNode<char>>)>, i: int, c: char)
    requires
        0 <= i < cs.len(),
        cs[i].0 != c,
    ensures
        find_child(cs.remove(i), c) == find_child(cs, c),
    decreases cs.len(),
{
    if cs.len() > 0 {
        if i == 0 {
            assert(cs.remove(0) =~= cs.drop_first());
        } else {
            if cs[0].0 == c {
                assert(cs.remove(i)[0] == cs[0]);
            } else {
                assert(cs.remove(i).drop_first() =~= cs.drop_first().remove(i - 1));
                lemma_find_after_remove(cs.drop_first(), i - 1, c);
            }
        }
    }
}

/// The words of a trie whose root children are `cs`; the top level of a
/// [`Trie`] is such a child list.
#[derive(Debug, PartialEq)]
pub struct Trie {
    pub words_count: usize,
    pub next: Vec<(char, Box<TireNode<char>>)>,
}

/// The characters of a string slice, in order.
fn to_chars(word: &str) -> (r: Vec<char>)
    ensures
        r@ == word@,
{
    broadcast use vstd::string::next_postcondition;
    broadcast use vstd::string::axiom_spec_iter;

    let mut it = word.chars();
    let mut v: Vec<char> = Vec::new();
    loop
        invariant_except_break
            v@ + it.remaining() == word@,
            it.decrease() is Some,
        ensures
            v@ == word@,
        decreases it.decrease()->0,
    {
        match it.next() {
            Some(c) => {
                v.push(c);
                proof {
                    assert(v@ + it.remaining() =~= word@);
                }
            }
            None => {
                proof {
                    assert(v@ =~= word@);
                }
                break ;
            }
        }
    }
    v
}

/// The position of the entry labelled `c`, if one exists.
fn find_child_idx(children: &Vec<(char, Box<TireNode<char>>)>, c: char) -> (r: Option<usize>)
    ensures
        match r {
            Some(i) => i < children@.len() && children@[i as int].0 == c && (forall|j: int|
                0 <= j < i ==> (#[trigger] children@[j]).0 != c) && find_child(children@, c)
                == Some(children@[i as int].1),
            None => find_child(children@, c) is None && (forall|j: int|
                0 <= j < children@.len() ==> (#[trigger] children@[j]).0 != c),
        },
{
    let mut i: usize = 0;
    while i < children.len()
        invariant
            i <= children@.len(),
            forall|j: int| 0 <= j < i ==> (#[trigger] children@[j]).0 != c,
        decreases children@.len() - i,
    {
        if children[i].0 == c {
            proof {
                lemma_find_at(children@, i as int);
            }
            return Some(i);
        }
        i = i + 1;
    }
    proof {
        lemma_find_none(children@, c);
    }
    None
}

/// Records one more occurrence of the word's suffix from `pos` below
/// `children`; every other word keeps its count.
fn insert_rec(children: &mut Vec<(char, Box<TireNode<char>>)>, word: &Vec<char>, pos: usize)
    requires
        pos < word@.len(),
        children_wf(old(children)@),
        pruned(old(children)@),
        stored(old(children)@, word@.skip(pos as int)) < usize::MAX,
    ensures
        children_wf(final(children)@),
        pruned(final(children)@),
        stored(final(children)@, word@.skip(pos as int)) == stored(
            old(children)@,
            word@.skip(pos as int),
        ) + 1,
        forall|w: Seq<char>| w != word@.skip(pos as int) ==> stored(final(children)@, w) == stored(
            old(children)@,
            w,
        ),
    decreases word@.len() - pos,
{
    let c = word[pos];
    let ghost suffix = word@.skip(pos as int);
    let ghost cs0 = children@;
    let idx: usize;
    match find_child_idx(children, c) {
        Some(i) => {
            idx = i;
        }
        None => {
            children.push((c, Box::new(TireNode::new())));
            idx = children.len() - 1;
            proof {
                let ent = children@.last();
                assert(children@ == cs0.push(ent));
                assert forall|w: Seq<char>| w != suffix implies stored(children@, w) == stored(
                    cs0,
                    w,
                ) by {
                    lemma_stored_after_push(cs0, ent, w);
                }
                assert(stored(children@, suffix) == stored(cs0, suffix)) by {
                    lemma_stored_after_push(cs0, ent, suffix);
                }
                assert forall|j: int| 0 <= j < idx implies (#[trigger] children@[j]).0 != c by {}
                lemma_find_at(children@, idx as int);
                assert(labels_distinct(children@)) by {
                    assert forall|a: int, b: int| 0 <= a < b < children@.len() implies (
                    #[trigger] children@[a]).0 != (#[trigger] children@[b]).0 by {
                        if b == idx {
                            assert(children@[a] == cs0[a]);
                        } else {
                            assert(children@[a] == cs0[a] && children@[b] == cs0[b]);
                        }
                    }
                }
                assert(children_wf(ent.1.next@));
                assert forall|j: int| 0 <= j < children@.len() implies children_wf(
                    (#[trigger] children@[j]).1.next@,
                ) by {
                    if j < idx {
                        assert(children@[j] == cs0[j]);
                    }
                }
                assert(children_wf(children@));
            }
        }
    }
    let ghost cs1 = children@;
    let wl = word.len();
    let (label, mut child) = children.remove(idx);
    let ghost child0 = *child;
    if pos + 1 == wl {
        proof {
            assert(suffix.len() == 1);
            assert(stored(cs1, suffix) == child0.count);
        }
        child.count = child.count + 1;
    } else {
        proof {
            assert(suffix.drop_first() =~= word@.skip(pos as int + 1));
            assert(stored(cs1, suffix) == stored(child0.next@, suffix.drop_first()));
        }
        insert_rec(&mut child.next, word, pos + 1);
    }
    children.insert(idx, (label, child));
    proof {
        assert(children@.len() == cs1.len());
        assert(children@[idx as int].0 == c);
        assert(forall|j: int| 0 <= j < cs1.len() && j != idx ==> children@[j] == cs1[j]);
        assert(children_wf(children@));
        lemma_find_at(children@, idx as int);
        assert(stored(children@, suffix) == stored(cs1, suffix) + 1);
        assert forall|w: Seq<char>| w != suffix implies stored(children@, w) == stored(cs1, w) by {
            lemma_stored_after_update(cs1, children@, idx as int, suffix, w);
        }
        assert forall|j: int| 0 <= j < children@.len() implies ((#[trigger] children@[j]).1.count
            > 0 || children@[j].1.next@.len() > 0) && pruned(children@[j].1.next@) by {
            if j == idx {
                if suffix.len() > 1 {
                    assert(stored(children@[j].1.next@, suffix.drop_first()) > 0);
                    lemma_stored_nonempty(children@[j].1.next@, suffix.drop_first());
                }
            } else {
                assert(children@[j] == cs1[j]);
                if j < cs0.len() {
                    assert(cs1[j] == cs0[j]);
                }
            }
        }
        assert(pruned(children@));
    }
}

/// Updating the subtree at one label changes only words through that
/// label; among those, only the updated suffixes move.
proof fn lemma_stored_after_update(
    cs1: Seq<(char, Box<TireNode<char>>)>,
    cs2: Seq<(char, Box<TireNode<char>>)>,
    i: int,
    suffix: Seq<char>,
    w: Seq<char>,
)
    requires
        0 <= i < cs1.len(),
        cs2.len() == cs1.len(),
        cs2[i].0 == cs1[i].0,
        forall|j: int| 0 <= j < cs1.len() && j != i ==> cs2[j] == cs1[j],
        forall|j: int| 0 <= j < i ==> (#[trigger] cs1[j]).0 != cs1[i].0,
        suffix.len() >= 1,
        suffix[0] == cs1[i].0,
        w != suffix,
        suffix.len() == 1 ==> cs2[i].1.next@ == cs1[i].1.next@,
        suffix.len() > 1 ==> cs2[i].1.count == cs1[i].1.count && (forall|v: Seq<char>|
            v != suffix.drop_first() ==> stored(cs2[i].1.next@, v) == stored(cs1[i].1.next@, v)),
    ensures
        stored(cs2, w) == stored(cs1, w),
{
    if w.len() > 0 {
        if w[0] == cs1[i].0 {
            assert(forall|j: int| 0 <= j < i ==> (#[trigger] cs2[j]).0 != cs2[i].0);
            lemma_find_at(cs1, i);
            lemma_find_at(cs2, i);
            if w.len() == 1 {
                if suffix.len() == 1 {
                    assert(w =~= suffix);
                }
                assert(stored(cs2, w) == stored(cs1, w));
            } else {
                if suffix.len() == 1 {
                    assert(stored(cs2, w) == stored(cs2[i].1.next@, w.drop_first()));
                    assert(stored(cs2, w) == stored(cs1, w));
                } else {
                    assert(stored(cs2, w) == stored(cs2[i].1.next@, w.drop_first()));
                    assert(stored(cs1, w) == stored(cs1[i].1.next@, w.drop_first()));
                    if w.drop_first() == suffix.drop_first() {
                        assert(w.len() == w.drop_first().len() + 1);
                        assert(suffix.len() == suffix.drop_first().len() + 1);
                        assert forall|k: int| 0 <= k < w.len() implies w[k] == suffix[k] by {
                            if k > 0 {
                                assert(w[k] == w.drop_first()[k - 1]);
                                assert(suffix[k] == suffix.drop_first()[k - 1]);
                            }
                        }
                        assert(w =~= suffix);
                    }
                    assert(stored(cs2, w) == stored(cs1, w));
                }
            }
        } else {
            lemma_find_other(cs1, cs2, i, w[0]);
        }
    }
}

/// Appending a fresh empty child changes no stored count.
proof fn lemma_stored_after_push(
    cs: Seq<(char, Box<TireNode<char>>)>,
    entry: (char, Box<TireNode<char>>),
    w: Seq<char>,
)
    requires
        forall|j: int| 0 <= j < cs.len() ==> (#[trigger] cs[j]).0 != entry.0,
        entry.1.count == 0,
        entry.1.next@.len() == 0,
    ensures
        stored(cs.push(entry), w) == stored(cs, w),
    decreases w.len(),
{
    let cs2 = cs.push(entry);
    if w.len() > 0 {
        if w[0] == entry.0 {
            lemma_find_none(cs, entry.0);
            lemma_find_at(cs2, cs.len() as int);
            if w.len() > 1 {
                assert(find_child(entry.1.next@, w.drop_first()[0]) is None);
                assert(stored(entry.1.next@, w.drop_first()) == 0);
            }
            assert(stored(cs2, w) == 0 && stored(cs, w) == 0);
        } else {
            lemma_find_push_other(cs, entry, w[0]);
        }
    }
}

/// Appending an entry with a different label leaves a lookup unchanged.
proof fn lemma_find_push_other(
    cs: Seq<(char, Box<TireNode<char>>)>,
    entry: (char, Box<TireNode<char>>),
    k: char,
)
    requires
        k != entry.0,
    ensures
        find_child(cs.push(entry), k) == find_child(cs, k),
    decreases cs.len(),
{
    let cs2 = cs.push(entry);
    if cs.len() == 0 {
        assert(cs2.drop_first() =~= Seq::<(char, Box<TireNode<char>>)>::empty());
        assert(find_child(cs2, k) is None);
    } else {
        if cs[0].0 == k {
            assert(cs2[0] == cs[0]);
        } else {
            assert(cs2.drop_first() =~= cs.drop_first().push(entry));
            lemma_find_push_other(cs.drop_first(), entry, k);
        }
    }
}


/// A node holding no count and no children stores nothing.
proof fn lemma_empty_node_stored(n: TireNode<char>, v: Seq<char>)
    requires
        n.count == 0,
        n.next@.len() == 0,
    ensures
        v.len() >= 1 ==> stored(n.next@, v) == 0,
        v.len() == 1 ==> n.count == 0,
{
    if v.len() >= 1 {
        assert(find_child(n.next@, v[0]) is None);
    }
}

/// Unrecords one occurrence of the word's suffix from `pos` below
/// `children`, pruning a child that becomes empty. Reports whether the
/// suffix was stored at all; when it was not, nothing changes.
fn delete_rec(children: &mut Vec<(char, Box<TireNode<char>>)>, word: &Vec<char>, pos: usize) -> (r:
    bool)
    requires
        pos < word@.len(),
        children_wf(old(children)@),
        pruned(old(children)@),
    ensures
        children_wf(final(children)@),
        pruned(final(children)@),
        r == (stored(old(children)@, word@.skip(pos as int)) > 0),
        r ==> stored(final(children)@, word@.skip(pos as int)) + 1 == stored(
            old(children)@,
            word@.skip(pos as int),
        ),
        !r ==> stored(final(children)@, word@.skip(pos as int)) == 0 && final(children)@.len()
            == old(children)@.len() && shape_of(final(children)@) == shape_of(old(children)@),
        forall|w: Seq<char>| w != word@.skip(pos as int) ==> stored(final(children)@, w) == stored(
            old(children)@,
            w,
        ),
    decreases word@.len() - pos,
{
    let c = word[pos];
    let ghost suffix = word@.skip(pos as int);
    let ghost cs0 = children@;
    match find_child_idx(children, c) {
        None => {
            proof {
                assert(stored(cs0, suffix) == 0);
            }
            false
        }
        Some(idx) => {
            let wl = word.len();
            let (label, mut child) = children.remove(idx);
            let ghost child0 = *child;
            let deleted: bool;
            if pos + 1 == wl {
                proof {
                    assert(suffix.len() == 1);
                    assert(stored(cs0, suffix) == child0.count);
                }
                if child.count == 0 {
                    deleted = false;
                } else {
                    child.count = child.count - 1;
                    deleted = true;
                }
            } else {
                proof {
                    assert(suffix.drop_first() =~= word@.skip(pos as int + 1));
                    assert(stored(cs0, suffix) == stored(child0.next@, suffix.drop_first()));
                    assert(children_wf(child0.next@));
                }
                deleted = delete_rec(&mut child.next, word, pos + 1);
            }
            if deleted && child.count == 0 && child.next.len() == 0 {
                proof {
                    assert(forall|j: int| 0 <= j < cs0.len() && j != idx ==> (#[trigger] cs0[j]).0
                        != c);
                    assert(children@ =~= cs0.remove(idx as int));
                    assert(children_wf(children@)) by {
                        assert forall|a: int, b: int|
                            0 <= a < b < children@.len() implies (#[trigger] children@[a]).0 != (
                        #[trigger] children@[b]).0 by {
                            if a < idx && b < idx {
                            } else if a < idx {
                                assert(children@[b] == cs0[b + 1]);
                            } else {
                                assert(children@[a] == cs0[a + 1] && children@[b] == cs0[b + 1]);
                            }
                        }
                        assert forall|j: int| 0 <= j < children@.len() implies children_wf(
                            (#[trigger] children@[j]).1.next@,
                        ) by {
                            if j < idx {
                                assert(children@[j] == cs0[j]);
                            } else {
                                assert(children@[j] == cs0[j + 1]);
                            }
                        }
                    }
                    lemma_find_none(children@, c);
                    assert(stored(children@, suffix) == 0);
                    assert forall|w: Seq<char>| w != suffix implies stored(children@, w) == stored(
                        cs0,
                        w,
                    ) by {
                        if w.len() > 0 {
                            if w[0] == c {
                                lemma_find_none(children@, c);
                                lemma_find_at(cs0, idx as int);
                                lemma_empty_node_stored(*child, w.drop_first());
                                if w.len() == 1 {
                                    if suffix.len() == 1 {
                                        assert(w =~= suffix);
                                    } else {
                                        assert(child0.count == child.count);
                                        assert(stored(cs0, w) == child0.count as nat);
                                    }
                                } else {
                                    if suffix.len() == 1 {
                                        assert(stored(child0.next@, w.drop_first()) == stored(
                                            child.next@,
                                            w.drop_first(),
                                        ));
                                    } else {
                                        if w.drop_first() == suffix.drop_first() {
                                            assert(w.len() == w.drop_first().len() + 1);
                                            assert(suffix.len() == suffix.drop_first().len() + 1);
                                            assert forall|k: int| 0 <= k < w.len() implies w[k]
                                                == suffix[k] by {
                                                if k > 0 {
                                                    assert(w[k] == w.drop_first()[k - 1]);
                                                    assert(suffix[k] == suffix.drop_first()[k - 1]);
                                                }
                                            }
                                            assert(w =~= suffix);
                                        }
                                        assert(stored(child0.next@, w.drop_first()) == stored(
                                            child.next@,
                                            w.drop_first(),
                                        ));
                                    }
                                    assert(stored(child.next@, w.drop_first()) == 0);
                                    assert(stored(cs0, w) == stored(child0.next@, w.drop_first()));
                                }
                                assert(stored(children@, w) == 0);
                            } else {
                                lemma_find_after_remove(cs0, idx as int, w[0]);
                            }
                        }
                    }
                }
            } else {
                children.insert(idx, (label, child));
                proof {
                    assert(children@.len() == cs0.len());
                    assert(children@[idx as int].0 == c);
                    assert(forall|j: int| 0 <= j < cs0.len() && j != idx ==> children@[j]
                        == cs0[j]);
                    assert(children_wf(children@));
                    lemma_find_at(children@, idx as int);
                    assert forall|w: Seq<char>| w != suffix implies stored(children@, w) == stored(
                        cs0,
                        w,
                    ) by {
                        lemma_stored_after_update(cs0, children@, idx as int, suffix, w);
                    }
                    if !deleted {
                        if suffix.len() == 1 {
                            assert(stored(children@, suffix) == child.count as nat);
                        } else {
                            assert(stored(children@, suffix) == stored(
                                child.next@,
                                suffix.drop_first(),
                            ));
                        }
                        assert(stored(children@, suffix) == 0);
                        assert(children@[idx as int].1.count == cs0[idx as int].1.count);
                        assert(shape_of(children@[idx as int].1.next@) == shape_of(
                            cs0[idx as int].1.next@,
                        ));
                        lemma_shapes_update(cs0, children@, idx as int, 0);
                    }
                }
            }
            deleted
        }
    }
}


impl Clone for Trie {
    /// A deep copy of the trie.
    fn clone(&self) -> Self {
        let mut next: Vec<(char, Box<TireNode<char>>)> = Vec::new();
        let mut i: usize = 0;
        while i < self.next.len()
            decreases self.next@.len() - i,
        {
            let label = self.next[i].0;
            let child = Box::new((*self.next[i].1).clone());
            next.push((label, child));
            i = i + 1;
        }
        Trie { words_count: self.words_count, next }
    }
}

impl Trie {
    /// All stored counts reachable from the root obey the distinct-label
    /// discipline.
    pub open spec fn wf(self) -> bool {
        children_wf(self.next@) && pruned(self.next@)
    }

    /// How many times `w` is stored.
    pub open spec fn count_of(self, w: Seq<char>) -> nat {
        stored(self.next@, w)
    }

    /// The empty trie.
    pub fn new() -> (r: Self)
        ensures
            r.wf(),
            r.words_count == 0,
            forall|w: Seq<char>| r.count_of(w) == 0,
    {
        let r = Trie { words_count: 0, next: Vec::new() };
        proof {
            assert forall|w: Seq<char>| r.count_of(w) == 0 by {
                if w.len() > 0 {
                    assert(find_child(r.next@, w[0]) is None);
                }
            }
        }
        r
    }

    /// Records one more occurrence of `word`; the empty word is ignored.
    pub fn insert_word(&mut self, word: &str)
        requires
            old(self).wf(),
            old(self).count_of(word@) < usize::MAX,
            old(self).words_count < usize::MAX,
        ensures
            final(self).wf(),
            word@.len() == 0 ==> *final(self) == *old(self),
            word@.len() > 0 ==> final(self).count_of(word@) == old(self).count_of(word@) + 1
                && final(self).words_count == old(self).words_count + 1 && (forall|w: Seq<char>|
                w != word@ ==> final(self).count_of(w) == old(self).count_of(w)),
    {
        let chars = to_chars(word);
        if chars.len() == 0 {
            return ;
        }
        proof {
            assert(chars@.skip(0) =~= word@);
        }
        insert_rec(&mut self.next, &chars, 0);
        self.words_count = self.words_count + 1;
    }

    /// Unrecords one occurrence of `word`, pruning nodes that become
    /// empty. Deleting the empty word always succeeds and changes
    /// nothing; an unstored word is reported as not deleted, leaving the
    /// trie's whole shape as it was. The caller keeps `words_count`
    /// honest: a trie that stores a word was built by insertions that
    /// counted it.
    pub fn delete_word(&mut self, word: &str) -> (r: bool)
        requires
            old(self).wf(),
            old(self).count_of(word@) > 0 ==> old(self).words_count >= 1,
        ensures
            final(self).wf(),
            word@.len() == 0 ==> r && *final(self) == *old(self),
            word@.len() > 0 ==> r == (old(self).count_of(word@) > 0),
            word@.len() > 0 && r ==> final(self).count_of(word@) + 1 == old(self).count_of(word@)
                && final(self).words_count == old(self).words_count - 1 && (forall|w: Seq<char>|
                w != word@ ==> final(self).count_of(w) == old(self).count_of(w)),
            word@.len() > 0 && !r ==> final(self).words_count == old(self).words_count
                && shape_of(final(self).next@) == shape_of(old(self).next@) && (forall|
                w: Seq<char>,
            |
                final(self).count_of(w) == old(self).count_of(w)),
    {
        let chars = to_chars(word);
        if chars.len() == 0 {
            return true;
        }
        proof {
            assert(chars@.skip(0) =~= word@);
        }
        let ghost pre = *self;
        if delete_rec(&mut self.next, &chars, 0) {
            proof {
                assert(pre.count_of(word@) > 0);
            }
            self.words_count = self.words_count - 1;
            true
        } else {
            false
        }
    }


    /// Collects every word stored at or below `node`, each being the
    /// spelling `current` extended by the path to its node.
    fn collect_rec(node: &TireNode<char>, current: String, result: &mut Vec<String>)
        requires
            old(result)@.len() < usize::MAX,
        ensures
            final(result)@.len() >= old(result)@.len(),
            forall|k: int| 0 <= k < old(result)@.len() ==> final(result)@[k] == old(result)@[k],
            forall|k: int| old(result)@.len() <= k < final(result)@.len() ==> extends(
                (#[trigger] final(result)@[k])@,
                current@,
            ),
        decreases *node,
    {
        let mut i: usize = 0;
        while i < node.next.len()
            invariant
                result@.len() >= old(result)@.len(),
                forall|k: int| 0 <= k < old(result)@.len() ==> result@[k] == old(result)@[k],
                forall|k: int| old(result)@.len() <= k < result@.len() ==> extends(
                    (#[trigger] result@[k])@,
                    current@,
                ),
            decreases node.next@.len() - i,
        {
            if result.len() < usize::MAX - 1 {
                let mut extended = current.clone();
                extended.push(node.next[i].0);
                let ghost mid = result@;
                Self::collect_rec(&node.next[i].1, extended, result);
                proof {
                    assert forall|k: int| old(result)@.len() <= k < result@.len() implies extends(
                        (#[trigger] result@[k])@,
                        current@,
                    ) by {
                        if k >= mid.len() {
                            let w = result@[k]@;
                            assert(extends(w, current@.push(node.next@[i as int].0)));
                            assert(w.subrange(0, current@.len() as int) =~= current@) by {
                                assert forall|m: int| 0 <= m < current@.len() implies w.subrange(
                                    0,
                                    current@.len() as int,
                                )[m] == current@[m] by {
                                    assert(w.subrange(
                                        0,
                                        current@.len() as int + 1,
                                    )[m] == current@.push(node.next@[i as int].0)[m]);
                                    assert(w[m] == current@[m]);
                                }
                            }
                        }
                    }
                }
            }
            i = i + 1;
        }
        if node.count > 0 && result.len() < usize::MAX {
            let ghost mid = result@;
            result.push(current);
            proof {
                assert(extends(result@[mid.len() as int]@, current@)) by {
                    assert(current@.subrange(0, current@.len() as int) =~= current@);
                }
            }
        }
    }

    /// The stored words that begin with `prefix`, spelled out in full.
    /// Every returned word carries the prefix; an empty prefix yields
    /// nothing.
    pub fn query_prefix(&self, prefix: &str) -> (r: Vec<String>)
        requires
            self.wf(),
        ensures
            forall|k: int| 0 <= k < r@.len() ==> extends((#[trigger] r@[k])@, prefix@),
    {
        let mut result: Vec<String> = Vec::new();
        let chars = to_chars(prefix);
        if chars.len() == 0 {
            return result;
        }
        let mut children = &self.next;
        let mut pos: usize = 0;
        let mut found: Option<&TireNode<char>> = None;
        loop
            invariant_except_break
                pos < chars@.len(),
                found is None,
            decreases chars@.len() - pos,
        {
            let c = chars[pos];
            let cl = chars.len();
            match find_child_idx(children, c) {
                Some(i) => {
                    if pos + 1 == cl {
                        found = Some(&children[i].1);
                        break ;
                    }
                    children = &children[i].1.next;
                    pos = pos + 1;
                }
                None => {
                    break ;
                }
            }
        }
        match found {
            Some(node) => {
                let spelled = prefix.to_owned();
                Self::collect_rec(node, spelled, &mut result);
                proof {
                    assert forall|k: int| 0 <= k < result@.len() implies extends(
                        (#[trigger] result@[k])@,
                        prefix@,
                    ) by {}
                }
                result
            }
            None => result,
        }
    }

    /// Whether `word` is stored at least once; the empty word counts as
    /// always present.
    pub fn query_word(&self, word: &str) -> (r: bool)
        requires
            self.wf(),
        ensures
            word@.len() == 0 ==> r,
            word@.len() > 0 ==> r == (self.count_of(word@) > 0),
    {
        let chars = to_chars(word);
        if chars.len() == 0 {
            return true;
        }
        let mut children = &self.next;
        let mut pos: usize = 0;
        proof {
            assert(word@.skip(0) =~= word@);
        }
        loop
            invariant
                self.wf(),
                pos < chars@.len(),
                chars@ == word@,
                stored(children@, word@.skip(pos as int)) == self.count_of(word@),
            decreases chars@.len() - pos,
        {
            let c = chars[pos];
            let cl = chars.len();
            match find_child_idx(children, c) {
                Some(i) => {
                    let ghost suffix = word@.skip(pos as int);
                    if pos + 1 == cl {
                        proof {
                            assert(suffix.len() == 1);
                        }
                        let r = children[i].1.count > 0;
                        return r;
                    }
                    proof {
                        assert(suffix.drop_first() =~= word@.skip(pos as int + 1));
                    }
                    children = &children[i].1.next;
                    pos = pos + 1;
                }
                None => {
                    return false;
                }
            }
        }
    }
}

} // verus!
