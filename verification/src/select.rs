//! Order selection: the nth largest element of a slice, by a verified
//! selection sort.
use vstd::prelude::*;
use vstd::seq_lib::group_to_multiset_ensures;
use vstd::seq_lib::to_multiset_contains;
use vstd::seq_lib::to_multiset_insert;
use vstd::seq_lib::to_multiset_len;
use vstd::seq_lib::to_multiset_remove;
use vstd::multiset::group_multiset_axioms;
use vstd::slice::slice_to_vec;

verus! {

/// True when `s` is sorted in descending order.
pub open spec fn sorted_desc(s: Seq<i32>) -> bool {
    forall|p: int, q: int| #![trigger s[p], s[q]] 0 <= p <= q < s.len() ==> s[p] >= s[q]
}

/// Overwriting one position changes the multiset by removing the old value
/// and inserting the new one.
proof fn lemma_update_to_multiset<A>(s: Seq<A>, i: int, x: A)
    requires
        0 <= i < s.len(),
    ensures
        s.update(i, x).to_multiset() == s.to_multiset().remove(s[i]).insert(x),
{
    assert(s.update(i, x) =~= s.remove(i).insert(i, x));
    to_multiset_remove(s, i);
    to_multiset_insert(s.remove(i), i, x);
}

/// Exchanging two positions of a sequence leaves its multiset unchanged.
proof fn lemma_swap_preserves_multiset<A>(s: Seq<A>, i: int, j: int)
    requires
        0 <= i < s.len(),
        0 <= j < s.len(),
    ensures
        s.update(i, s[j]).update(j, s[i]).to_multiset() == s.to_multiset(),
{
    broadcast use group_to_multiset_ensures;
    broadcast use group_multiset_axioms;

    if i == j {
        assert(s.update(i, s[j]).update(j, s[i]) =~= s);
    } else {
        let t = s.update(i, s[j]);
        lemma_update_to_multiset(s, i, s[j]);
        lemma_update_to_multiset(t, j, s[i]);
        assert(s.contains(s[i]));
        assert(s.to_multiset().count(s[i]) > 0);
        assert(t[j] == s[j]);
        assert(t.update(j, s[i]).to_multiset() =~= s.to_multiset());
    }
}

/// Law: a multiset has exactly one descending-sorted arrangement, so the
/// sorted sequence that the contract of `nthmax` speaks of is unique.
pub proof fn lemma_sorted_desc_unique(s1: Seq<i32>, s2: Seq<i32>)
    requires
        sorted_desc(s1),
        sorted_desc(s2),
        s1.to_multiset() == s2.to_multiset(),
    ensures
        s1 == s2,
    decreases s1.len(),
{
    broadcast use group_to_multiset_ensures;
    broadcast use group_multiset_axioms;

    to_multiset_len(s1);
    to_multiset_len(s2);
    if s1.len() == 0 {
        assert(s1 =~= s2);
    } else {
        assert(s2.len() == s1.len());
        to_multiset_contains(s1, s1[0]);
        to_multiset_contains(s2, s1[0]);
        to_multiset_contains(s1, s2[0]);
        to_multiset_contains(s2, s2[0]);
        assert(s2.contains(s1[0]));
        let i = choose|i: int| 0 <= i < s2.len() && s2[i] == s1[0];
        assert(s2[0] >= s2[i]);
        assert(s1.contains(s2[0]));
        let j = choose|j: int| 0 <= j < s1.len() && s1[j] == s2[0];
        assert(s1[0] >= s1[j]);
        assert(s1[0] == s2[0]);
        to_multiset_remove(s1, 0);
        to_multiset_remove(s2, 0);
        assert(s1.remove(0) =~= s1.drop_first());
        assert(s2.remove(0) =~= s2.drop_first());
        assert(s1.drop_first().to_multiset() == s2.drop_first().to_multiset());
        lemma_sorted_desc_unique(s1.drop_first(), s2.drop_first());
        assert forall|x: int| 0 <= x < s1.len() implies s1[x] == s2[x] by {
            if x > 0 {
                assert(s1.drop_first()[x - 1] == s2.drop_first()[x - 1]);
            }
        }
        assert(s1 =~= s2);
    }
}

/// Returns the nth largest element in `a`, or None if it does not exist.
///
/// Duplicates count separately: the result is what a descending sort of `a`
/// holds at index `n`.
pub fn nthmax(n: usize, a: &[i32]) -> (r: Option<i32>)
    ensures
        match r {
            Some(v) => n < a@.len() && exists|s: Seq<i32>|
                #[trigger] s.to_multiset() == a@.to_multiset() && sorted_desc(s) && s[n as int]
                    == v,
            None => n >= a@.len(),
        },
{
    if n >= a.len() {
        return None;
    }
    let mut v = slice_to_vec(a);
    let len = v.len();
    let mut i: usize = 0;
    while i < len
        invariant
            len == v@.len(),
            len == a@.len(),
            v@.to_multiset() == a@.to_multiset(),
            0 <= i <= len,
            sorted_desc(v@.take(i as int)),
            forall|p: int, q: int| #![trigger v@[p], v@[q]] 0 <= p < i <= q < len ==> v@[p]
                >= v@[q],
        decreases len - i,
    {
        let mut best: usize = i;
        let mut j: usize = i + 1;
        while j < len
            invariant
                len == v@.len(),
                i < len,
                i <= best < len,
                i < j <= len,
                best < j,
                forall|k: int| i <= k < j ==> v@[k] <= v@[best as int],
            decreases len - j,
        {
            if v[j] > v[best] {
                best = j;
            }
            j += 1;
        }
        let ghost olds = v@;
        let vi = v[i];
        let vb = v[best];
        v.set(i, vb);
        v.set(best, vi);
        proof {
            assert(v@ =~= olds.update(i as int, olds[best as int]).update(
                best as int,
                olds[i as int],
            ));
            lemma_swap_preserves_multiset(olds, i as int, best as int);
            assert(v@.take(i as int) =~= olds.take(i as int));
            assert forall|p: int, q: int| #![trigger v@[p], v@[q]]
                0 <= p < i + 1 <= q < len implies v@[p] >= v@[q] by {
                assert(v@[i as int] == olds[best as int]);
                if p < i {
                    assert(v@[p] == olds[p]);
                }
            }
            assert(sorted_desc(v@.take(i + 1))) by {
                assert forall|p: int, q: int| #![trigger v@.take(i + 1)[p], v@.take(i + 1)[q]]
                    0 <= p <= q < i + 1 implies v@.take(i + 1)[p] >= v@.take(i + 1)[q] by {
                    if q < i {
                        assert(olds.take(i as int)[p] >= olds.take(i as int)[q]);
                    } else if p < q {
                        assert(v@[p] >= v@[q]);
                    }
                }
            }
        }
        i += 1;
    }
    proof {
        assert(v@.take(len as int) =~= v@);
    }
    let result = v[n];
    proof {
        assert(v@.to_multiset() == a@.to_multiset() && sorted_desc(v@) && v@[n as int] == result);
    }
    Some(result)
}

} // verus!
