//! A bitmap over machine words: membership of small integers by one bit
//! each.

use vstd::prelude::*;

verus! {

/// A set of integers below a fixed bound, one bit per value.
#[derive(Debug, Clone)]
pub struct BitMap {
    max: usize,
    bits: usize,
    map: Vec<u64>,
}

impl BitMap {
    /// Whether the bit for `i` is set.
    pub closed spec fn has(self, i: usize) -> bool {
        &&& (i as int) / 64 < self.map@.len()
        &&& ((self.map@[(i as int) / 64] >> (((i as int) % 64) as u64)) & 1u64) == 1u64
    }

    /// The number of values the map has room for.
    pub closed spec fn span(self) -> int {
        (self.map@.len() * 64) as int
    }

    /// A map with room for every value up to `max`, all bits clear.
    pub fn new(max: usize) -> (r: Self)
        requires
            max <= usize::MAX - 63,
        ensures
            max <= r.span(),
            forall|i: usize| !r.has(i),
    {
        let words: usize = (max + 63) / 64;
        let mut map: Vec<u64> = Vec::new();
        while map.len() < words
            invariant
                map@.len() <= words,
                forall|k: int| 0 <= k < map@.len() ==> map@[k] == 0,
            decreases words - map@.len(),
        {
            map.push(0);
        }
        let r = BitMap { max, bits: 64, map };
        proof {
            assert(max <= words * 64) by (nonlinear_arith)
                requires
                    words == (max + 63) / 64,
                    max <= usize::MAX - 63,
            ;
            assert forall|i: usize| !r.has(i) by {
                if (i as int) / 64 < r.map@.len() {
                    assert(r.map@[(i as int) / 64] == 0);
                    let s = (((i as int) % 64) as u64);
                    assert(((0u64 >> s) & 1u64) == 0u64) by (bit_vector);
                }
            }
        }
        r
    }

    /// Sets the bit for `index`; reports whether it was clear before.
    pub fn add(&mut self, index: usize) -> (r: bool)
        requires
            (index as int) < old(self).span(),
        ensures
            r == !old(self).has(index),
            final(self).has(index),
            final(self).span() == old(self).span(),
            forall|j: usize| j != index ==> final(self).has(j) == old(self).has(j),
    {
        let (x, bit) = Self::get_position(index);
        let y = bit as u64;
        proof {
            assert((index as int) / 64 < self.map@.len()) by (nonlinear_arith)
                requires
                    (index as int) < self.map@.len() * 64,
            ;
        }
        let w = self.map[x];
        let r;
        if w & (1u64 << y) == 0 {
            self.map.set(x, w | (1u64 << y));
            r = true;
        } else {
            r = false;
        }
        proof {
            let yo = y;
            assert(((w >> yo) & 1u64 == 1u64) == (w & (1u64 << yo) != 0)) by (bit_vector)
                requires
                    yo < 64,
            ;
            assert(((w | (1u64 << yo)) >> yo) & 1u64 == 1u64) by (bit_vector)
                requires
                    yo < 64,
            ;
            assert(forall|z: u64| z < 64 && z != yo ==> ((w | (1u64 << yo)) >> z) & 1u64 == (w
                >> z) & 1u64) by (bit_vector)
                requires
                    yo < 64,
            ;
            assert forall|j: usize| j != index implies final(self).has(j) == old(self).has(j) by {
                self.lemma_other_bit(*old(self), index, j);
            }
        }
        r
    }

    /// Clears the bit for `index`; reports whether it was set before.
    pub fn remove(&mut self, index: usize) -> (r: bool)
        requires
            (index as int) < old(self).span(),
        ensures
            r == old(self).has(index),
            !final(self).has(index),
            final(self).span() == old(self).span(),
            forall|j: usize| j != index ==> final(self).has(j) == old(self).has(j),
    {
        let (x, bit) = Self::get_position(index);
        let y = bit as u64;
        proof {
            assert((index as int) / 64 < self.map@.len()) by (nonlinear_arith)
                requires
                    (index as int) < self.map@.len() * 64,
            ;
        }
        let w = self.map[x];
        let r;
        if w & (1u64 << y) == 0 {
            r = false;
        } else {
            self.map.set(x, w & !(1u64 << y));
            r = true;
        }
        proof {
            let yo = y;
            assert(((w >> yo) & 1u64 == 1u64) == (w & (1u64 << yo) != 0)) by (bit_vector)
                requires
                    yo < 64,
            ;
            assert(((w & !(1u64 << yo)) >> yo) & 1u64 == 0u64) by (bit_vector)
                requires
                    yo < 64,
            ;
            assert(forall|z: u64| z < 64 && z != yo ==> ((w & !(1u64 << yo)) >> z) & 1u64 == (w
                >> z) & 1u64) by (bit_vector)
                requires
                    yo < 64,
            ;
            assert forall|j: usize| j != index implies final(self).has(j) == old(self).has(j) by {
                self.lemma_other_bit(*old(self), index, j);
            }
        }
        r
    }

    /// Flips the bit for `index`.
    pub fn reverse(&mut self, index: usize)
        requires
            (index as int) < old(self).span(),
        ensures
            final(self).has(index) == !old(self).has(index),
            final(self).span() == old(self).span(),
            forall|j: usize| j != index ==> final(self).has(j) == old(self).has(j),
    {
        let (x, bit) = Self::get_position(index);
        let y = bit as u64;
        proof {
            assert((index as int) / 64 < self.map@.len()) by (nonlinear_arith)
                requires
                    (index as int) < self.map@.len() * 64,
            ;
        }
        let w = self.map[x];
        self.map.set(x, w ^ (1u64 << y));
        proof {
            let yo = y;
            assert((((w ^ (1u64 << yo)) >> yo) & 1u64 == 1u64) == !((w >> yo) & 1u64 == 1u64))
                by (bit_vector)
                requires
                    yo < 64,
            ;
            assert(forall|z: u64| z < 64 && z != yo ==> ((w ^ (1u64 << yo)) >> z) & 1u64 == (w
                >> z) & 1u64) by (bit_vector)
                requires
                    yo < 64,
            ;
            assert forall|j: usize| j != index implies final(self).has(j) == old(self).has(j) by {
                self.lemma_other_bit(*old(self), index, j);
            }
        }
    }

    /// Whether the bit for `index` is set.
    pub fn contains(&mut self, index: usize) -> (r: bool)
        requires
            (index as int) < old(self).span(),
        ensures
            r == old(self).has(index),
            *final(self) == *old(self),
    {
        let (x, bit) = Self::get_position(index);
        let y = bit as u64;
        proof {
            assert((index as int) / 64 < self.map@.len()) by (nonlinear_arith)
                requires
                    (index as int) < self.map@.len() * 64,
            ;
        }
        let w = self.map[x];
        proof {
            let yo = y;
            assert(((w >> yo) & 1u64 == 1u64) == (w & (1u64 << yo) != 0)) by (bit_vector)
                requires
                    yo < 64,
            ;
        }
        !((w & (1u64 << y)) == 0)
    }

    /// The word and bit position that hold `index`.
    fn get_position(index: usize) -> (r: (usize, usize))
        ensures
            r.0 == (index as int) / 64,
            r.1 == (index as int) % 64,
    {
        (index / 64, index % 64)
    }

    /// A changed word leaves bits in other words, and other bits of the
    /// same word, as they were.
    proof fn lemma_other_bit(self, prior: BitMap, index: usize, j: usize)
        requires
            j != index,
            self.map@.len() == prior.map@.len(),
            forall|k: int| 0 <= k < self.map@.len() && k != (index as int) / 64
                ==> self.map@[k] == prior.map@[k],
            ((index as int) / 64 < self.map@.len()) ==> forall|z: u64| z < 64 && z != ((
            index as int) % 64) as u64 ==> ((#[trigger] (self.map@[(index as int) / 64] >> z))
                & 1u64) == ((prior.map@[(index as int) / 64] >> z) & 1u64),
        ensures
            self.has(j) == prior.has(j),
    {
        if (j as int) / 64 < self.map@.len() {
            if (j as int) / 64 == (index as int) / 64 {
                assert((j as int) % 64 != (index as int) % 64);
            }
        }
    }
}

} // verus!
