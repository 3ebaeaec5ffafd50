//! Comparison sorts over machine integers. Each sort leaves the buffer
//! sorted and keeps exactly the elements it was given.

use vstd::prelude::*;

verus! {

use vstd::seq_lib::lemma_multiset_commutative;

/// The sequence never decreases from left to right.
pub open spec fn sorted(s: Seq<isize>) -> bool {
    forall|i: int, j: int| 0 <= i <= j < s.len() ==> #[trigger] s[i] <= #[trigger] s[j]
}

/// Exchanges two positions, keeping the multiset of elements.
fn swap_items(data: &mut Vec<isize>, i: usize, j: usize)
    requires
        i < old(data)@.len(),
        j < old(data)@.len(),
    ensures
        final(data)@ == old(data)@.update(i as int, old(data)@[j as int]).update(
            j as int,
            old(data)@[i as int],
        ),
        final(data)@.to_multiset() == old(data)@.to_multiset(),
        final(data)@.len() == old(data)@.len(),
        final(data)@[i as int] == old(data)@[j as int],
        final(data)@[j as int] == old(data)@[i as int],
        forall|k: int| 0 <= k < old(data)@.len() && k != i && k != j
            ==> final(data)@[k] == old(data)@[k],
    {
    let vi = data[i];
    let vj = data[j];
    data.set(i, vj);
    data.set(j, vi);
    proof {
        broadcast use vstd::seq_lib::group_to_multiset_ensures;

        let s0 = old(data)@;
        let s2 = data@;
        if i == j {
            assert(s2 =~= s0);
        } else {
            assert(s2 =~= s0.remove(i as int).insert(i as int, vj).remove(j as int).insert(
                j as int,
                vi,
            )) by {
                assert forall|k: int| 0 <= k < s0.len() implies s2[k] == s0.remove(
                    i as int,
                ).insert(i as int, vj).remove(j as int).insert(j as int, vi)[k] by {}
            }
            vstd::seq_lib::to_multiset_remove(s0, i as int);
            vstd::seq_lib::to_multiset_insert(s0.remove(i as int), i as int, vj);
            vstd::seq_lib::to_multiset_remove(s0.remove(i as int).insert(i as int, vj), j as int);
            vstd::seq_lib::to_multiset_insert(
                s0.remove(i as int).insert(i as int, vj).remove(j as int),
                j as int,
                vi,
            );
            assert(s2.to_multiset() =~= s0.to_multiset());
        }
    }
}

/// Repeatedly swaps the front of the unsorted tail with any smaller
/// element behind it, growing a sorted, dominated prefix.
pub fn bubble_sort(data: &mut Vec<isize>)
    requires
        old(data)@.len() >= 1,
    ensures
        sorted(final(data)@),
        final(data)@.to_multiset() == old(data)@.to_multiset(),
        final(data)@.len() == old(data)@.len(),
{
    let mut i: usize = 0;
    while i < data.len() - 1
        invariant
            data@.len() == old(data)@.len(),
            data@.len() >= 1,
            i <= data@.len(),
            data@.to_multiset() == old(data)@.to_multiset(),
            forall|k1: int, k2: int| 0 <= k1 < k2 < data@.len() && k1 < i
                ==> #[trigger] data@[k1] <= #[trigger] data@[k2],
        decreases data@.len() - i,
    {
        let mut j: usize = i + 1;
        while j < data.len()
            invariant
                data@.len() == old(data)@.len(),
                i < j <= data@.len(),
                data@.to_multiset() == old(data)@.to_multiset(),
                forall|k1: int, k2: int| 0 <= k1 < k2 < data@.len() && k1 < i
                    ==> #[trigger] data@[k1] <= #[trigger] data@[k2],
                forall|l: int| i < l < j ==> #[trigger] data@[i as int] <= data@[l],
            decreases data@.len() - j,
        {
            if data[i] > data[j] {
                swap_items(data, i, j);
            }
            j = j + 1;
        }
        i = i + 1;
    }
}

/// Selects the least element of the unsorted tail each round and swaps
/// it to the front of that tail.
pub fn select_sort(data: &mut Vec<isize>)
    requires
        old(data)@.len() >= 1,
    ensures
        sorted(final(data)@),
        final(data)@.to_multiset() == old(data)@.to_multiset(),
        final(data)@.len() == old(data)@.len(),
{
    let mut i: usize = 0;
    while i < data.len() - 1
        invariant
            data@.len() == old(data)@.len(),
            data@.len() >= 1,
            i <= data@.len(),
            data@.to_multiset() == old(data)@.to_multiset(),
            forall|k1: int, k2: int| 0 <= k1 < k2 < data@.len() && k1 < i
                ==> #[trigger] data@[k1] <= #[trigger] data@[k2],
        decreases data@.len() - i,
    {
        let mut min_index: usize = i;
        let mut j: usize = i + 1;
        while j < data.len()
            invariant
                data@.len() == old(data)@.len(),
                i <= min_index < j <= data@.len(),
                i < j,
                forall|l: int| i <= l < j ==> #[trigger] data@[min_index as int] <= data@[l],
            decreases data@.len() - j,
        {
            if data[j] < data[min_index] {
                min_index = j;
            }
            j = j + 1;
        }
        swap_items(data, i, min_index);
        i = i + 1;
    }
}

/// Bubbles each new element down through the sorted prefix to its place.
pub fn insert_sort(data: &mut Vec<isize>)
    ensures
        sorted(final(data)@),
        final(data)@.to_multiset() == old(data)@.to_multiset(),
        final(data)@.len() == old(data)@.len(),
{
    if data.len() == 0 {
        return ;
    }
    let mut i: usize = 1;
    while i < data.len()
        invariant
            data@.len() == old(data)@.len(),
            1 <= i <= data@.len(),
            data@.to_multiset() == old(data)@.to_multiset(),
            forall|k1: int, k2: int| 0 <= k1 <= k2 < i ==> #[trigger] data@[k1]
                <= #[trigger] data@[k2],
        decreases data@.len() - i,
    {
        let mut j: usize = i;
        while j >= 1
            invariant
                data@.len() == old(data)@.len(),
                j <= i < data@.len(),
                data@.to_multiset() == old(data)@.to_multiset(),
                forall|k1: int, k2: int| 0 <= k1 < k2 <= i && k2 != j ==> #[trigger] data@[k1]
                    <= #[trigger] data@[k2],
                forall|l: int| j < l <= i ==> #[trigger] data@[j as int] <= data@[l],
            decreases j,
        {
            if data[j] < data[j - 1] {
                swap_items(data, j, j - 1);
            }
            j = j - 1;
        }
        i = i + 1;
    }
}

} // verus!
