//! A binary heap in an array, switchable between least-first and
//! greatest-first ordering.

use vstd::prelude::*;

verus! {

use vstd::multiset::Multiset;

broadcast use vstd::multiset::group_multiset_axioms, vstd::seq_lib::group_to_multiset_ensures;

/// Which end of the order the root holds.
#[derive(Debug, Clone, Copy, PartialEq, Eq, Structural)]
pub enum HeapOrder {
    MAX,
    MIN,
}

/// The ordering a heap with the given policy keeps along every edge.
pub open spec fn heap_le(o: HeapOrder, a: isize, b: isize) -> bool {
    match o {
        HeapOrder::MIN => a <= b,
        HeapOrder::MAX => a >= b,
    }
}

/// Every element obeys its parent under the policy `o`.
pub open spec fn is_heap(s: Seq<isize>, o: HeapOrder) -> bool {
    forall|j: int| 1 <= j < s.len() ==> heap_le(o, s[(j - 1) / 2], #[trigger] s[j])
}

/// The root of a heap bounds every element.
proof fn lemma_heap_root(s: Seq<isize>, o: HeapOrder, j: int)
    requires
        is_heap(s, o),
        0 <= j < s.len(),
    ensures
        heap_le(o, s[0], s[j]),
    decreases j,
{
    if j > 0 {
        lemma_heap_root(s, o, (j - 1) / 2);
    }
}

/// Exchanges two positions of the backing array, keeping the multiset.
fn swap_cells(data: &mut Vec<isize>, i: usize, j: usize)
    requires
        i < old(data)@.len(),
        j < old(data)@.len(),
    ensures
        final(data)@ == old(data)@.update(i as int, old(data)@[j as int]).update(
            j as int,
            old(data)@[i as int],
        ),
        final(data)@.to_multiset() == old(data)@.to_multiset(),
        final(data)@.len() == old(data)@.len(),
{
    let vi = data[i];
    let vj = data[j];
    data.set(i, vj);
    data.set(j, vi);
    proof {
        broadcast use vstd::seq_lib::group_to_multiset_ensures;

        let s0 = old(data)@;
        let s2 = data@;
        if i != j {
            assert(s2 =~= s0.remove(i as int).insert(i as int, vj).remove(j as int).insert(
                j as int,
                vi,
            ));
            vstd::seq_lib::to_multiset_remove(s0, i as int);
            vstd::seq_lib::to_multiset_insert(s0.remove(i as int), i as int, vj);
            vstd::seq_lib::to_multiset_remove(s0.remove(i as int).insert(i as int, vj), j as int);
            vstd::seq_lib::to_multiset_insert(
                s0.remove(i as int).insert(i as int, vj).remove(j as int),
                j as int,
                vi,
            );
            assert(s2.to_multiset() =~= s0.to_multiset());
        } else {
            assert(s2 =~= s0);
        }
    }
}

/// A binary heap: the backing array and the active ordering policy.
#[derive(Debug, Clone)]
pub struct Heap {
    pub heap: Vec<isize>,
    pub order: HeapOrder,
}

impl Heap {
    /// The heap discipline holds for the active policy.
    pub open spec fn wf(self) -> bool {
        is_heap(self.heap@, self.order)
    }

    /// An empty least-first heap.
    pub fn new() -> (r: Self)
        ensures
            r.wf(),
            r.heap@.len() == 0,
            r.order is MIN,
    {
        Heap { heap: Vec::new(), order: HeapOrder::MIN }
    }

    /// Adds `data`, sifting it up until its parent bounds it.
    #[verifier::rlimit(100)]
    pub fn push(&mut self, data: isize)
        requires
            old(self).wf(),
            old(self).heap@.len() < usize::MAX,
        ensures
            final(self).wf(),
            final(self).order == old(self).order,
            final(self).heap@.len() == old(self).heap@.len() + 1,
            final(self).heap@.to_multiset() == old(self).heap@.to_multiset().insert(data),
    {
        broadcast use vstd::seq_lib::group_to_multiset_ensures;

        let o = self.order;
        let mut cur = self.heap.len();
        self.heap.push(data);
        while cur != 0
            invariant
                cur < self.heap@.len(),
                self.heap@.len() == old(self).heap@.len() + 1,
                self.order == old(self).order,
                self.order == o,
                self.heap@.to_multiset() == old(self).heap@.to_multiset().insert(data),
                forall|j: int| 1 <= j < self.heap@.len() && j != cur ==> heap_le(
                    o,
                    self.heap@[(j - 1) / 2],
                    #[trigger] self.heap@[j],
                ),
                forall|j: int| 1 <= j < self.heap@.len() && (j - 1) / 2 == cur && cur >= 1
                    ==> heap_le(o, self.heap@[(cur - 1) / 2], #[trigger] self.heap@[j]),
            decreases cur,
        {
            let parent = if cur % 2 == 0 {
                (cur - 1) / 2
            } else {
                cur / 2
            };
            proof {
                assert(parent == (cur - 1) as int / 2);
            }
            let out_of_order = match o {
                HeapOrder::MAX => self.heap[parent] < self.heap[cur],
                HeapOrder::MIN => self.heap[parent] > self.heap[cur],
            };
            if out_of_order {
                let ghost pre = self.heap@;
                swap_cells(&mut self.heap, parent, cur);
                proof {
                    assert forall|j: int|
                        1 <= j < self.heap@.len() && j != parent implies heap_le(
                        o,
                        self.heap@[(j - 1) / 2],
                        #[trigger] self.heap@[j],
                    ) by {
                        if j == cur {
                        } else if (j - 1) / 2 == cur {
                        } else if (j - 1) / 2 == parent {
                        }
                    }
                }
                cur = parent;
            } else {
                proof {
                    assert forall|j: int| 1 <= j < self.heap@.len() implies heap_le(
                        o,
                        self.heap@[(j - 1) / 2],
                        #[trigger] self.heap@[j],
                    ) by {}
                }
                return ;
            }
        }
    }

    /// Removes and returns the root — the least or greatest element under
    /// the active policy — restoring the discipline by sifting down.
    #[verifier::rlimit(100)]
    pub fn pop(&mut self) -> (r: Option<isize>)
        requires
            old(self).wf(),
            old(self).heap@.len() < usize::MAX / 2,
        ensures
            final(self).wf(),
            final(self).order == old(self).order,
            old(self).heap@.len() == 0 ==> r is None && final(self).heap@ == old(self).heap@,
            old(self).heap@.len() > 0 ==> r == Some(old(self).heap@[0])
                && final(self).heap@.len() + 1 == old(self).heap@.len()
                && final(self).heap@.to_multiset() == old(self).heap@.to_multiset().remove(
                old(self).heap@[0],
            ) && (forall|x: isize| old(self).heap@.to_multiset().count(x) > 0 ==> heap_le(
                old(self).order,
                old(self).heap@[0],
                x,
            )),
    {
        broadcast use vstd::seq_lib::group_to_multiset_ensures;

        if self.heap.len() == 0 {
            return None;
        }
        proof {
            assert forall|x: isize| old(self).heap@.to_multiset().count(x) > 0 implies heap_le(
                old(self).order,
                old(self).heap@[0],
                x,
            ) by {
                let k = choose|k: int|
                    0 <= k < old(self).heap@.len() && old(self).heap@[k] == x;
                lemma_heap_root(old(self).heap@, old(self).order, k);
            }
        }
        let o = self.order;
        let mut cur: usize = 0;
        let len = self.heap.len();
        swap_cells(&mut self.heap, 0, len - 1);
        let ghost swapped = self.heap@;
        let data = self.heap.pop();
        proof {
            assert(self.heap@ =~= swapped.subrange(0, swapped.len() - 1));
            assert(self.heap@ =~= swapped.remove(swapped.len() - 1));
            vstd::seq_lib::to_multiset_remove(swapped, swapped.len() - 1);
            assert(self.heap@.to_multiset() =~= old(self).heap@.to_multiset().remove(
                old(self).heap@[0],
            ));
        }
        proof {
            assert forall|j: int|
                1 <= j < self.heap@.len() && (j - 1) / 2 != 0 implies heap_le(
                o,
                self.heap@[(j - 1) / 2],
                #[trigger] self.heap@[j],
            ) by {
                assert(self.heap@[j] == old(self).heap@[j]);
                assert(self.heap@[(j - 1) / 2] == old(self).heap@[(j - 1) / 2]);
            }
        }
        while cur * 2 + 1 < len - 1
            invariant
                len >= 1,
                len < usize::MAX / 2,
                len == old(self).heap@.len(),
                self.heap@.len() == len - 1,
                cur < len,
                self.order == o,
                o == old(self).order,
                data == Some(old(self).heap@[0]),
                forall|x: isize| old(self).heap@.to_multiset().count(x) > 0 ==> heap_le(
                    o,
                    old(self).heap@[0],
                    x,
                ),
                self.heap@.to_multiset() == old(self).heap@.to_multiset().remove(
                    old(self).heap@[0],
                ),
                forall|j: int| 1 <= j < self.heap@.len() && (j - 1) / 2 != cur ==> heap_le(
                    o,
                    self.heap@[(j - 1) / 2],
                    #[trigger] self.heap@[j],
                ),
                cur >= 1 ==> forall|j: int| 1 <= j < self.heap@.len() && (j - 1) / 2 == cur
                    ==> heap_le(o, self.heap@[(cur - 1) / 2], #[trigger] self.heap@[j]),
            decreases len - cur,
        {
            let left = cur * 2 + 1;
            let right = cur * 2 + 2;
            let pick: usize;
            if right < len - 1 {
                let right_first = match o {
                    HeapOrder::MAX => self.heap[right] > self.heap[left],
                    HeapOrder::MIN => self.heap[right] < self.heap[left],
                };
                pick = if right_first {
                    right
                } else {
                    left
                };
            } else {
                pick = left;
            }
            let should_swap = match o {
                HeapOrder::MAX => self.heap[pick] > self.heap[cur],
                HeapOrder::MIN => self.heap[pick] < self.heap[cur],
            };
            if should_swap {
                swap_cells(&mut self.heap, pick, cur);
                proof {
                    assert forall|j: int|
                        1 <= j < self.heap@.len() && (j - 1) / 2 != pick implies heap_le(
                        o,
                        self.heap@[(j - 1) / 2],
                        #[trigger] self.heap@[j],
                    ) by {
                        if j == pick {
                        } else if j == cur {
                        } else if (j - 1) / 2 == cur {
                        }
                    }
                }
                cur = pick;
            } else {
                proof {
                    assert forall|j: int| 1 <= j < self.heap@.len() implies heap_le(
                        o,
                        self.heap@[(j - 1) / 2],
                        #[trigger] self.heap@[j],
                    ) by {
                        if (j - 1) / 2 == cur {
                            assert(j == cur * 2 + 1 || j == cur * 2 + 2);
                        }
                    }
                }
                return data;
            }
        }
        proof {
            assert forall|j: int| 1 <= j < self.heap@.len() implies heap_le(
                o,
                self.heap@[(j - 1) / 2],
                #[trigger] self.heap@[j],
            ) by {
                if (j - 1) / 2 == cur {
                    assert(j >= cur * 2 + 1);
                }
            }
        }
        data
    }

    /// Switches to least-first order, rebuilding the heap when it was
    /// greatest-first.
    pub fn set_heap_order_min(&mut self)
        requires
            old(self).wf(),
        ensures
            final(self).wf(),
            final(self).order is MIN,
            final(self).heap@.to_multiset() == old(self).heap@.to_multiset(),
    {
        if matches!(self.order, HeapOrder::MAX) {
            self.order = HeapOrder::MIN;
            self.rebuild();
        }
    }

    /// Switches to greatest-first order, rebuilding the heap when it was
    /// least-first.
    pub fn set_heap_order_max(&mut self)
        requires
            old(self).wf(),
        ensures
            final(self).wf(),
            final(self).order is MAX,
            final(self).heap@.to_multiset() == old(self).heap@.to_multiset(),
    {
        if matches!(self.order, HeapOrder::MIN) {
            self.order = HeapOrder::MAX;
            self.rebuild();
        }
    }

    /// Drains the backing array and pushes everything back under the
    /// current policy.
    #[verifier::rlimit(100)]
    fn rebuild(&mut self)
        ensures
            final(self).wf(),
            final(self).order == old(self).order,
            final(self).heap@.to_multiset() == old(self).heap@.to_multiset(),
    {
        broadcast use vstd::seq_lib::group_to_multiset_ensures;

        let mut vec: Vec<isize> = Vec::new();
        loop
            invariant_except_break
                self.order == old(self).order,
                vec@.to_multiset().add(self.heap@.to_multiset()) == old(self).heap@.to_multiset(),
            ensures
                self.order == old(self).order,
                self.heap@.len() == 0,
                vec@.to_multiset() == old(self).heap@.to_multiset(),
            decreases self.heap@.len(),
        {
            let ghost pre = self.heap@;
            match self.heap.pop() {
                Some(n) => {
                    proof {
                        assert(self.heap@ =~= pre.remove(pre.len() - 1));
                        vstd::seq_lib::to_multiset_remove(pre, pre.len() - 1);
                    }
                    vec.push(n);
                    proof {
                        assert(vec@.to_multiset().add(self.heap@.to_multiset()) =~= old(
                            self,
                        ).heap@.to_multiset());
                    }
                }
                None => {
                    proof {
                        assert(vec@.to_multiset().add(self.heap@.to_multiset()) =~= vec@.to_multiset());
                    }
                    break ;
                }
            }
        }
        let mut i: usize = 0;
        proof {
            assert(vec@.subrange(0, 0) =~= Seq::<isize>::empty());
            assert(Seq::<isize>::empty().to_multiset() =~= Multiset::empty());
        }
        while i < vec.len()
            invariant
                i <= vec@.len(),
                self.order == old(self).order,
                self.wf(),
                self.heap@.len() == i,
                self.heap@.to_multiset() == vec@.subrange(0, i as int).to_multiset(),
            decreases vec@.len() - i,
        {
            proof {
                assert(vec@.subrange(0, i as int + 1) =~= vec@.subrange(0, i as int).push(
                    vec@[i as int],
                ));
            }
            let x = vec[i];
            self.push(x);
            i = i + 1;
        }
        proof {
            assert(vec@.subrange(0, vec@.len() as int) =~= vec@);
        }
    }
}

} // verus!
