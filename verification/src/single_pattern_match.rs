//! Finding every occurrence of a pattern inside a text.

use vstd::prelude::*;

verus! {

use vstd::seq_lib::lemma_seq_contains_after_push;
use vstd::string::StringSliceAdditionalSpecFns;

/// The pattern `p` occurs in `t` at byte position `i`.
pub open spec fn match_at(t: Seq<u8>, p: Seq<u8>, i: int) -> bool {
    &&& 0 <= i
    &&& i + p.len() <= t.len()
    &&& t.subrange(i, i + p.len() as int) == p
}

/// Compares the pattern against every window of the text and collects
/// each position where all bytes agree, in increasing order.
pub fn brute_force(text: &str, patten: &str) -> (r: Vec<usize>)
    requires
        text.spec_bytes().len() < usize::MAX,
    ensures
        forall|k: int| 0 <= k < r@.len()
            ==> match_at(text.spec_bytes(), patten.spec_bytes(), r@[k] as int),
        forall|k1: int, k2: int| 0 <= k1 < k2 < r@.len() ==> r@[k1] < r@[k2],
        forall|m: usize| #[trigger] match_at(text.spec_bytes(), patten.spec_bytes(), m as int)
            ==> r@.contains(m),
{
    broadcast use lemma_seq_contains_after_push;

    let mut result: Vec<usize> = Vec::new();
    if patten.len() > text.len() {
        proof {
            assert forall|m: usize| match_at(text.spec_bytes(), patten.spec_bytes(), m as int)
                implies result@.contains(m) by {}
        }
        return result;
    }
    let text_b = text.as_bytes();
    let patten_b = patten.as_bytes();
    let ghost t = text.spec_bytes();
    let ghost p = patten.spec_bytes();
    let mut i: usize = 0;
    let bound = text_b.len() - patten_b.len() + 1;
    while i < bound
        invariant
            t.len() < usize::MAX,
            text_b@ == t,
            patten_b@ == p,
            bound == t.len() - p.len() + 1,
            p.len() <= t.len(),
            i <= bound,
            forall|k: int| 0 <= k < result@.len() ==> match_at(t, p, result@[k] as int),
            forall|k1: int, k2: int| 0 <= k1 < k2 < result@.len() ==> result@[k1] < result@[k2],
            forall|k: int| 0 <= k < result@.len() ==> result@[k] < i,
            forall|m: usize| #[trigger] match_at(t, p, m as int) && m < i ==> result@.contains(m),
        decreases bound - i,
    {
        let mut j: usize = 0;
        let mut hit = true;
        while j < patten_b.len()
            invariant
                text_b@ == t,
                patten_b@ == p,
                t.len() < usize::MAX,
                p.len() <= t.len(),
                i + p.len() <= t.len(),
                j <= p.len(),
                hit ==> forall|l: int| 0 <= l < j ==> t[i + l] == p[l],
                !hit ==> !match_at(t, p, i as int),
            decreases p.len() - j,
        {
            proof {
                assert(i + j < t.len());
            }
            if patten_b[j] != text_b[i + j] {
                proof {
                    if match_at(t, p, i as int) {
                        assert(t.subrange(i as int, i + p.len() as int)[j as int] == p[j as int]);
                    }
                }
                hit = false;
                j = patten_b.len();
            } else {
                j = j + 1;
            }
        }
        if hit {
            proof {
                assert(t.subrange(i as int, i + p.len() as int) =~= p);
            }
            let ghost pre = result@;
            result.push(i);
            proof {
                assert forall|m: usize| #[trigger] match_at(t, p, m as int) && m <= i implies result@.contains(
                    m,
                ) by {
                    if m < i {
                        assert(pre.contains(m));
                        let k = choose|k: int| 0 <= k < pre.len() && pre[k] == m;
                        assert(result@[k] == m);
                    } else {
                        assert(result@[pre.len() as int] == i);
                    }
                }
            }
        } else {
            proof {
                assert(!match_at(t, p, i as int));
                assert forall|m: usize| #[trigger] match_at(t, p, m as int) && m <= i implies result@.contains(
                    m,
                ) by {}
            }
        }
        i = i + 1;
    }
    proof {
        assert forall|m: usize| match_at(t, p, m as int) implies result@.contains(m) by {
            assert(m < bound);
        }
    }
    result
}

} // verus!
