//! A two-ended list with index access, backed by a growable buffer.

use vstd::prelude::*;

verus! {

use vstd::std_specs::cmp::PartialEqSpec;

/// A list addressed from both ends; the view runs front to back.
#[derive(Debug, PartialEq)]
pub struct DoublyLinkList<T: PartialEq> {
    data: Vec<T>,
}

impl<T: PartialEq> View for DoublyLinkList<T> {
    type V = Seq<T>;

    closed spec fn view(&self) -> Seq<T> {
        self.data@
    }
}

impl<T: PartialEq> DoublyLinkList<T> {
    /// The empty list.
    pub fn new() -> (r: Self)
        ensures
            r@ == Seq::<T>::empty(),
    {
        DoublyLinkList { data: Vec::new() }
    }

    /// True when the list holds nothing.
    pub fn is_empty(&self) -> (r: bool)
        ensures
            r == (self@.len() == 0),
    {
        self.data.len() == 0
    }

    /// The number of held elements.
    pub fn len(&self) -> (r: usize)
        ensures
            r == self@.len(),
    {
        self.data.len()
    }

    /// Appends `data` at the back.
    pub fn push_back(&mut self, data: T)
        requires
            old(self)@.len() < usize::MAX,
        ensures
            final(self)@ == old(self)@.push(data),
    {
        self.data.push(data);
    }

    /// Puts `data` in front of everything else.
    pub fn push_front(&mut self, data: T)
        requires
            old(self)@.len() < usize::MAX,
        ensures
            final(self)@ == seq![data] + old(self)@,
    {
        self.data.insert(0, data);
        proof {
            assert(self@ =~= seq![data] + old(self)@);
        }
    }

    /// Takes the back element, if any.
    pub fn pop_back(&mut self) -> (r: Option<T>)
        ensures
            old(self)@.len() == 0 ==> r is None && *final(self) == *old(self),
            old(self)@.len() > 0 ==> r == Some(old(self)@.last())
                && final(self)@ == old(self)@.drop_last(),
    {
        if self.data.len() == 0 {
            None
        } else {
            let r = self.data.pop();
            r
        }
    }

    /// Takes the front element, if any.
    pub fn pop_front(&mut self) -> (r: Option<T>)
        ensures
            old(self)@.len() == 0 ==> r is None && *final(self) == *old(self),
            old(self)@.len() > 0 ==> r == Some(old(self)@[0])
                && final(self)@ == old(self)@.drop_first(),
    {
        if self.data.len() == 0 {
            None
        } else {
            let r = self.data.remove(0);
            proof {
                assert(self@ =~= old(self)@.drop_first());
            }
            Some(r)
        }
    }

    /// Puts `data` at position `index`, shifting the rest back. Fails,
    /// changing nothing, when the index is past the end.
    pub fn insert(&mut self, index: usize, data: T) -> (r: bool)
        requires
            old(self)@.len() < usize::MAX,
        ensures
            index <= old(self)@.len() ==> r && final(self)@ == old(self)@.insert(index as int, data),
            index > old(self)@.len() ==> !r && *final(self) == *old(self),
    {
        if index > self.data.len() {
            false
        } else {
            self.data.insert(index, data);
            true
        }
    }

    /// Removes and returns the element at `index`, if it exists.
    pub fn remove(&mut self, index: usize) -> (r: Option<T>)
        ensures
            index < old(self)@.len() ==> r == Some(old(self)@[index as int])
                && final(self)@ == old(self)@.remove(index as int),
            index >= old(self)@.len() ==> r is None && *final(self) == *old(self),
    {
        if index >= self.data.len() {
            None
        } else {
            Some(self.data.remove(index))
        }
    }

    /// The position of the first element equal to `target`, if any.
    pub fn contains(&self, target: &T) -> (r: Option<usize>)
        ensures
            T::obeys_eq_spec() ==> match r {
                Some(i) => i < self@.len() && self@[i as int].eq_spec(target)
                    && forall|j: int| 0 <= j < i ==> !(#[trigger] self@[j]).eq_spec(target),
                None => forall|j: int| 0 <= j < self@.len()
                    ==> !(#[trigger] self@[j]).eq_spec(target),
            },
    {
        let mut count: usize = 0;
        while count < self.data.len()
            invariant
                count <= self@.len(),
                T::obeys_eq_spec() ==> forall|j: int| 0 <= j < count
                    ==> !(#[trigger] self@[j]).eq_spec(target),
            decreases self@.len() - count,
        {
            if self.data[count] == *target {
                return Some(count);
            }
            count = count + 1;
        }
        None
    }

    /// Drops every element.
    pub fn clear(&mut self)
        ensures
            final(self)@ == Seq::<T>::empty(),
    {
        self.data.clear();
    }
}

} // verus!
