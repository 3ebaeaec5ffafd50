//! A union-find (disjoint-set) structure over a parent-pointer forest,
//! with path compression on lookup.

use vstd::prelude::*;

verus! {

use vstd::set_lib::lemma_int_range;

broadcast use vstd::set::group_set_axioms, vstd::set_lib::group_set_lib_default;

/// Follows parent pointers from `i` for at most `fuel` steps; the root
/// found, if any.
pub open spec fn rooted(s: Seq<usize>, i: int, fuel: nat) -> Option<int>
    decreases fuel,
{
    if !(0 <= i < s.len()) {
        None
    } else if s[i] == i {
        Some(i)
    } else if fuel == 0 {
        None
    } else {
        rooted(s, s[i] as int, (fuel - 1) as nat)
    }
}

/// The number of steps from `i` to its root, chasing at most `fuel`
/// pointers.
pub open spec fn steps(s: Seq<usize>, i: int, fuel: nat) -> nat
    decreases fuel,
{
    if !(0 <= i < s.len()) {
        0
    } else if s[i] == i {
        0
    } else if fuel == 0 {
        0
    } else {
        1 + steps(s, s[i] as int, (fuel - 1) as nat)
    }
}

/// Every element reaches a root within as many steps as there are
/// elements.
pub open spec fn forest_wf(s: Seq<usize>) -> bool {
    forall|i: int| 0 <= i < s.len() ==> (#[trigger] rooted(s, i, s.len())) is Some
}

/// The representative of `i`'s set.
pub open spec fn root_of(s: Seq<usize>, i: int) -> int {
    rooted(s, i, s.len())->0
}

/// More fuel never changes a lookup that already found its root.
proof fn lemma_fuel_mono(s: Seq<usize>, i: int, f1: nat, f2: nat)
    requires
        rooted(s, i, f1) is Some,
        f2 >= f1,
    ensures
        rooted(s, i, f2) == rooted(s, i, f1),
        steps(s, i, f2) == steps(s, i, f1),
    decreases f1,
{
    if 0 <= i < s.len() && s[i] != i && f1 > 0 {
        lemma_fuel_mono(s, s[i] as int, (f1 - 1) as nat, (f2 - 1) as nat);
    }
}

/// The root of a non-root element is its parent's root, one step closer;
/// the root itself is an element whose pointer is its own index.
proof fn lemma_root_step(s: Seq<usize>, i: int)
    requires
        forest_wf(s),
        0 <= i < s.len(),
        s[i] != i,
    ensures
        0 <= s[i] < s.len(),
        root_of(s, s[i] as int) == root_of(s, i),
        steps(s, s[i] as int, s.len()) < steps(s, i, s.len()),
        0 <= root_of(s, i) < s.len(),
        s[root_of(s, i)] == root_of(s, i),
    decreases steps(s, i, s.len()),
{
    let n = s.len();
    assert(rooted(s, i, n) is Some);
    assert(rooted(s, i, n) == rooted(s, s[i] as int, (n - 1) as nat));
    lemma_fuel_mono(s, s[i] as int, (n - 1) as nat, n);
    if s[s[i] as int] != s[i] as int {
        lemma_root_step(s, s[i] as int);
    }
}

/// Roots answer for themselves.
proof fn lemma_root_self(s: Seq<usize>, i: int)
    requires
        0 <= i < s.len(),
        s[i] == i,
    ensures
        root_of(s, i) == i,
        steps(s, i, s.len()) == 0,
{
}

/// The elements a lookup from `i` walks through, itself included.
pub open spec fn path_nodes(s: Seq<usize>, i: int, fuel: nat) -> Set<int>
    decreases fuel,
{
    if !(0 <= i < s.len()) {
        Set::empty()
    } else if s[i] == i {
        Set::empty().insert(i)
    } else if fuel == 0 {
        Set::empty().insert(i)
    } else {
        path_nodes(s, s[i] as int, (fuel - 1) as nat).insert(i)
    }
}

/// Path members lie in range, share `i`'s root, and take no more steps
/// than `i`; the path is finite with one member per step plus the root.
proof fn lemma_path_nodes(s: Seq<usize>, i: int)
    requires
        forest_wf(s),
        0 <= i < s.len(),
    ensures
        path_nodes(s, i, s.len()).finite(),
        path_nodes(s, i, s.len()).len() == steps(s, i, s.len()) + 1,
        forall|x: int| #[trigger] path_nodes(s, i, s.len()).contains(x) ==> 0 <= x < s.len()
            && root_of(s, x) == root_of(s, i),
    decreases steps(s, i, s.len()),
{
    let n = s.len();
    if s[i] == i {
        assert(path_nodes(s, i, n) =~= Set::empty().insert(i));
        assert(path_nodes(s, i, n).len() == 1);
        assert(steps(s, i, n) == 0);
    } else {
        lemma_root_step(s, i);
        lemma_path_nodes(s, s[i] as int);
        assert(rooted(s, s[i] as int, (n - 1) as nat) is Some);
        lemma_fuel_mono(s, s[i] as int, (n - 1) as nat, n);
        lemma_path_fuel(s, s[i] as int, (n - 1) as nat, n);
        assert(path_nodes(s, i, n) == path_nodes(s, s[i] as int, (n - 1) as nat).insert(i));
        assert(!path_nodes(s, s[i] as int, n).contains(i)) by {
            if path_nodes(s, s[i] as int, n).contains(i) {
                lemma_path_member_steps(s, s[i] as int, i);
            }
        }
        assert(path_nodes(s, i, n).len() == path_nodes(s, s[i] as int, n).len() + 1);
        assert(steps(s, i, n) == 1 + steps(s, s[i] as int, n));
        assert forall|x: int| path_nodes(s, i, n).contains(x) implies 0 <= x < s.len()
            && root_of(s, x) == root_of(s, i) by {
            if x == i {
                assert(0 <= x < s.len());
            } else {
                assert(path_nodes(s, s[i] as int, n).contains(x));
                assert(0 <= x < s.len() && root_of(s, x) == root_of(s, s[i] as int));
            }
        }
    }
}

/// Fuel beyond what the lookup needs does not change the walked path.
proof fn lemma_path_fuel(s: Seq<usize>, i: int, f1: nat, f2: nat)
    requires
        rooted(s, i, f1) is Some,
        f2 >= f1,
    ensures
        path_nodes(s, i, f2) == path_nodes(s, i, f1),
    decreases f1,
{
    if 0 <= i < s.len() && s[i] != i && f1 > 0 {
        lemma_path_fuel(s, s[i] as int, (f1 - 1) as nat, (f2 - 1) as nat);
    }
}

/// Everything on the path takes at most as many steps as the start.
proof fn lemma_path_member_steps(s: Seq<usize>, i: int, x: int)
    requires
        forest_wf(s),
        0 <= i < s.len(),
        path_nodes(s, i, s.len()).contains(x),
    ensures
        steps(s, x, s.len()) <= steps(s, i, s.len()),
    decreases steps(s, i, s.len()),
{
    let n = s.len();
    if s[i] == i {
    } else {
        lemma_root_step(s, i);
        lemma_path_fuel(s, s[i] as int, (n - 1) as nat, n);
        if x != i {
            lemma_path_member_steps(s, s[i] as int, x);
        }
    }
}

/// A lookup path cannot be longer than the element count allows.
proof fn lemma_steps_bound(s: Seq<usize>, i: int)
    requires
        forest_wf(s),
        0 <= i < s.len(),
    ensures
        steps(s, i, s.len()) + 1 <= s.len(),
{
    let n = s.len() as int;
    lemma_path_nodes(s, i);
    lemma_int_range(0, n);
    assert(path_nodes(s, i, s.len()).subset_of(vstd::set_lib::set_int_range(0, n)));
    vstd::set_lib::lemma_len_subset(path_nodes(s, i, s.len()), vstd::set_lib::set_int_range(0, n));
}

/// Re-aiming one element straight at its own root keeps every lookup
/// intact.
proof fn lemma_compress_one(s: Seq<usize>, a: int, r: usize, i: int, f: nat)
    requires
        forest_wf(s),
        0 <= a < s.len(),
        s[a] != a,
        r as int == root_of(s, a),
        rooted(s, i, f) is Some,
    ensures
        rooted(s.update(a, r), i, f) == rooted(s, i, f),
    decreases f,
{
    let s2 = s.update(a, r);
    lemma_root_step(s, a);
    if s[i] == i {
    } else if i == a {
        if f <= s.len() {
            lemma_fuel_mono(s, a, f, s.len());
        } else {
            lemma_fuel_mono(s, a, s.len(), f);
        }
        assert(rooted(s, i, f) == Some(r as int));
        assert(s2[a] == r && r as int != a);
        assert(s2[r as int] == r);
        assert(rooted(s2, i, f) == rooted(s2, r as int, (f - 1) as nat));
    } else {
        lemma_compress_one(s, a, r, s[i] as int, (f - 1) as nat);
    }
}

/// After the re-aim of [`lemma_compress_one`] the forest is still well
/// formed and every element keeps its representative.
proof fn lemma_compress(s: Seq<usize>, a: int, r: usize)
    requires
        forest_wf(s),
        0 <= a < s.len(),
        s[a] != a,
        r as int == root_of(s, a),
    ensures
        forest_wf(s.update(a, r)),
        forall|i: int| 0 <= i < s.len() ==> root_of(s.update(a, r), i) == root_of(s, i),
{
    let s2 = s.update(a, r);
    assert forall|i: int| 0 <= i < s2.len() implies (#[trigger] rooted(s2, i, s2.len())) is Some
        && root_of(s2, i) == root_of(s, i) by {
        lemma_compress_one(s, a, r, i, s.len());
    }
}

/// Pointing the root `pa` at the distinct root `pb` merges exactly the
/// two sets and leaves every other representative alone.
proof fn lemma_union_one(s: Seq<usize>, pa: int, pb: usize, i: int)
    requires
        forest_wf(s),
        0 <= pa < s.len(),
        s[pa] == pa,
        0 <= pb < s.len(),
        s[pb as int] == pb as int,
        pb as int != pa,
        0 <= i < s.len(),
    ensures
        rooted(s.update(pa, pb), i, s.len()) is Some,
        root_of(s.update(pa, pb), i) == if root_of(s, i) == pa {
            pb as int
        } else {
            root_of(s, i)
        },
    decreases steps(s, i, s.len()),
{
    let n = s.len();
    let s2 = s.update(pa, pb);
    if i == pa {
        assert(s2[pa] == pb);
        assert(s2[pb as int] == pb);
        assert(root_of(s, pa) == pa);
        lemma_steps_bound(s, i);
        assert(rooted(s2, pa, n) == rooted(s2, pb as int, (n - 1) as nat));
        assert(n >= 1);
        assert(rooted(s2, pb as int, (n - 1) as nat) == Some(pb as int));
    } else if s[i] == i {
        assert(rooted(s2, i, n) == Some(i));
        assert(root_of(s, i) == i);
    } else {
        lemma_root_step(s, i);
        lemma_union_one(s, pa, pb, s[i] as int);
        assert(s2[i] == s[i]);
        lemma_steps_bound(s, i);
        assert(rooted(s2, i, n) == rooted(s2, s[i] as int, (n - 1) as nat));
        lemma_union_fuel(s, pa, pb, s[i] as int);
        lemma_fuel_mono(s2, s[i] as int, (n - 1) as nat, n);
    }
}

/// The merged forest answers a lookup one step below the top with one
/// unit of fuel to spare, because the original path was short enough.
proof fn lemma_union_fuel(s: Seq<usize>, pa: int, pb: usize, j: int)
    requires
        forest_wf(s),
        0 <= pa < s.len(),
        s[pa] == pa,
        0 <= pb < s.len(),
        s[pb as int] == pb as int,
        pb as int != pa,
        0 <= j < s.len(),
        rooted(s.update(pa, pb), j, s.len()) is Some,
    ensures
        rooted(s.update(pa, pb), j, (s.len() - 1) as nat) is Some,
{
    let n = s.len();
    let s2 = s.update(pa, pb);
    lemma_union_path(s, pa, pb, j);
    let f = steps_needed(s, pa, pb, j);
    assert(rooted(s2, j, f) is Some);
    lemma_fuel_mono(s2, j, f, (n - 1) as nat);
}

/// The fuel that certainly completes a lookup from `j` after the union:
/// the old path length, plus one more step if it used to end at `pa`.
pub open spec fn steps_needed(s: Seq<usize>, pa: int, pb: usize, j: int) -> nat {
    if root_of(s, j) == pa {
        steps(s, j, s.len()) + 1
    } else {
        steps(s, j, s.len())
    }
}

/// The lookup from `j` in the merged forest completes within
/// [`steps_needed`] fuel, which stays below the element count.
proof fn lemma_union_path(s: Seq<usize>, pa: int, pb: usize, j: int)
    requires
        forest_wf(s),
        0 <= pa < s.len(),
        s[pa] == pa,
        0 <= pb < s.len(),
        s[pb as int] == pb as int,
        pb as int != pa,
        0 <= j < s.len(),
    ensures
        rooted(s.update(pa, pb), j, steps_needed(s, pa, pb, j)) is Some,
        steps_needed(s, pa, pb, j) <= s.len() - 1,
    decreases steps(s, j, s.len()),
{
    let n = s.len();
    let s2 = s.update(pa, pb);
    if j == pa {
        assert(root_of(s, pa) == pa);
        assert(steps(s, pa, n) == 0);
        assert(steps_needed(s, pa, pb, j) == 1);
        assert(rooted(s2, pa, 1) == rooted(s2, pb as int, 0));
        assert(rooted(s2, pb as int, 0) == Some(pb as int));
        assert(n >= 2) by {
            assert(0 <= pa < n && 0 <= pb < n && pa != pb as int);
        }
    } else if s[j] == j {
        assert(root_of(s, j) == j);
        assert(steps_needed(s, pa, pb, j) == 0);
        assert(rooted(s2, j, 0) == Some(j));
        assert(n >= 1);
    } else {
        lemma_root_step(s, j);
        lemma_union_path(s, pa, pb, s[j] as int);
        assert(s2[j] == s[j]);
        assert(rooted(s, s[j] as int, (n - 1) as nat) is Some);
        lemma_fuel_mono(s, s[j] as int, (n - 1) as nat, n);
        assert(steps(s, j, n) == 1 + steps(s, s[j] as int, n));
        assert(steps_needed(s, pa, pb, s[j] as int) + 1 == steps_needed(s, pa, pb, j));
        assert(rooted(s2, j, steps_needed(s, pa, pb, j)) == rooted(
            s2,
            s[j] as int,
            steps_needed(s, pa, pb, s[j] as int),
        ));
        // the strict bound: the old path from j, together with pb when the
        // path ends at pa, is a set of distinct elements
        lemma_path_nodes(s, j);
        lemma_int_range(0, n as int);
        if root_of(s, j) == pa {
            assert(!path_nodes(s, j, n).contains(pb as int)) by {
                if path_nodes(s, j, n).contains(pb as int) {
                    assert(root_of(s, pb as int) == root_of(s, j));
                    assert(root_of(s, pb as int) == pb as int);
                }
            }
            assert(path_nodes(s, j, n).insert(pb as int).len() == path_nodes(s, j, n).len() + 1);
            assert(path_nodes(s, j, n).insert(pb as int).subset_of(
                vstd::set_lib::set_int_range(0, n as int),
            ));
            vstd::set_lib::lemma_len_subset(
                path_nodes(s, j, n).insert(pb as int),
                vstd::set_lib::set_int_range(0, n as int),
            );
        } else {
            assert(path_nodes(s, j, n).subset_of(vstd::set_lib::set_int_range(0, n as int)));
            vstd::set_lib::lemma_len_subset(
                path_nodes(s, j, n),
                vstd::set_lib::set_int_range(0, n as int),
            );
        }
    }
}

/// A partition of the elements below a fixed count into linked sets.
pub struct UnionFindSet {
    pub parent: Vec<usize>,
}

impl UnionFindSet {
    /// Every pointer stays in range and every chain reaches a root.
    pub open spec fn wf(self) -> bool {
        forest_wf(self.parent@)
    }

    /// The representative of `a`'s set.
    pub open spec fn find_spec(self, a: int) -> int {
        root_of(self.parent@, a)
    }

    /// A structure of `size` singleton sets, each element its own root.
    pub fn new(size: usize) -> (r: Self)
        ensures
            r.wf(),
            r.parent@.len() == size,
            forall|i: int| 0 <= i < size ==> r.find_spec(i) == i,
    {
        let mut unf = UnionFindSet { parent: Vec::new() };
        let mut i: usize = 0;
        while i < size
            invariant
                i <= size,
                unf.parent@.len() == i,
                forall|k: int| 0 <= k < i ==> unf.parent@[k] == k,
            decreases size - i,
        {
            unf.parent.push(i);
            i = i + 1;
        }
        proof {
            assert forall|k: int| 0 <= k < size implies (#[trigger] rooted(
                unf.parent@,
                k,
                unf.parent@.len(),
            )) is Some && root_of(unf.parent@, k) == k by {
                assert(unf.parent@[k] == k);
            }
        }
        unf
    }

    /// The representative of `a`'s set; every chain walked on the way is
    /// re-aimed straight at that root, changing no set.
    pub fn find(&mut self, a: usize) -> (r: usize)
        requires
            old(self).wf(),
            a < old(self).parent@.len(),
        ensures
            final(self).wf(),
            final(self).parent@.len() == old(self).parent@.len(),
            r as int == old(self).find_spec(a as int),
            r < old(self).parent@.len(),
            forall|i: int| 0 <= i < old(self).parent@.len() ==> final(self).find_spec(i) == old(
                self,
            ).find_spec(i),
        decreases steps(old(self).parent@, a as int, old(self).parent@.len()),
    {
        let ghost orig = self.parent@;
        let pa = self.parent[a];
        if pa != a {
            proof {
                lemma_root_step(orig, a as int);
            }
            let r = self.find(pa);
            let ghost mid = self.parent@;
            proof {
                lemma_root_step(orig, a as int);
                assert(r as int == root_of(orig, pa as int));
                assert(root_of(orig, a as int) == r as int);
                assert(self.find_spec(a as int) == r as int);
                assert(root_of(mid, a as int) == r as int);
                assert(orig[root_of(orig, a as int)] == root_of(orig, a as int));
                assert(r as int != a as int);
                assert(mid[a as int] != a as int) by {
                    if mid[a as int] == a as int {
                        lemma_root_self(mid, a as int);
                    }
                }
            }
            self.parent.set(a, r);
            proof {
                lemma_compress(mid, a as int, r);
            }
            r
        } else {
            proof {
                lemma_root_self(self.parent@, a as int);
            }
            a
        }
    }

    /// Joins the sets of `a` and `b`: afterwards everything that shared a
    /// set with `a` shares one with `b`, and no other set changes.
    pub fn union(&mut self, a: usize, b: usize)
        requires
            old(self).wf(),
            a < old(self).parent@.len(),
            b < old(self).parent@.len(),
        ensures
            final(self).wf(),
            final(self).parent@.len() == old(self).parent@.len(),
            forall|i: int| 0 <= i < old(self).parent@.len() ==> final(self).find_spec(i) == (if old(
                self,
            ).find_spec(i) == old(self).find_spec(a as int) {
                old(self).find_spec(b as int)
            } else {
                old(self).find_spec(i)
            }),
    {
        let ghost orig = self.parent@;
        let pa = self.find(a);
        let pb = self.find(b);
        let ghost mid = self.parent@;
        proof {
            assert(root_of(orig, pa as int) == pa as int) by {
                if orig[a as int] != a as int {
                    lemma_root_step(orig, a as int);
                    lemma_root_self(orig, pa as int);
                } else {
                    lemma_root_self(orig, a as int);
                }
            }
            assert(root_of(orig, pb as int) == pb as int) by {
                if orig[b as int] != b as int {
                    lemma_root_step(orig, b as int);
                    lemma_root_self(orig, pb as int);
                } else {
                    lemma_root_self(orig, b as int);
                }
            }
            assert(self.find_spec(pa as int) == pa as int);
            assert(self.find_spec(pb as int) == pb as int);
            assert(root_of(mid, pa as int) == pa as int);
            assert(root_of(mid, pb as int) == pb as int);
            assert(mid[pa as int] == pa) by {
                if mid[pa as int] != pa {
                    lemma_root_step(mid, pa as int);
                }
            }
            assert(mid[pb as int] == pb as int) by {
                if mid[pb as int] != pb as int {
                    lemma_root_step(mid, pb as int);
                }
            }
        }
        self.parent.set(pa, pb);
        proof {
            if pa != pb {
                assert forall|i: int| 0 <= i < mid.len() implies (#[trigger] rooted(
                    self.parent@,
                    i,
                    self.parent@.len(),
                )) is Some && root_of(self.parent@, i) == (if root_of(mid, i) == pa as int {
                    pb as int
                } else {
                    root_of(mid, i)
                }) by {
                    lemma_union_one(mid, pa as int, pb, i);
                }
            } else {
                assert(self.parent@ =~= mid);
            }
        }
    }

    /// Whether `a` and `b` are in the same set; lookups may compress
    /// chains but change no set.
    pub fn is_union(&mut self, a: usize, b: usize) -> (r: bool)
        requires
            old(self).wf(),
            a < old(self).parent@.len(),
            b < old(self).parent@.len(),
        ensures
            final(self).wf(),
            final(self).parent@.len() == old(self).parent@.len(),
            r == (old(self).find_spec(a as int) == old(self).find_spec(b as int)),
            forall|i: int| 0 <= i < old(self).parent@.len() ==> final(self).find_spec(i) == old(
                self,
            ).find_spec(i),
    {
        let ra = self.find(a);
        let rb = self.find(b);
        ra == rb
    }
}

} // verus!
