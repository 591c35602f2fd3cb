//! A string-keyed map stored as a vector of pairs, with last-wins insertion,
//! and its conversion to a key-sorted vector of pairs.
use crate::strutil::str_eq;
use vstd::map::*;
use vstd::prelude::*;
use vstd::seq_lib::group_to_multiset_ensures;
use vstd::seq_lib::to_multiset_insert;
use vstd::string::StrSliceExecFns;

verus! {

/// True when no two pairs of `ps` share a key.
pub open spec fn unique_keys(ps: Seq<(String, String)>) -> bool {
    forall|i: int, j: int|
        0 <= i < j < ps.len() ==> (#[trigger] ps[i]).0@ != (#[trigger] ps[j]).0@
}

/// The map that inserting the pairs of `ps` in order builds: a later pair
/// with the same key wins.
pub open spec fn pairs_map(ps: Seq<(String, String)>) -> Map<Seq<char>, Seq<char>>
    decreases ps.len(),
{
    if ps.len() == 0 {
        Map::empty()
    } else {
        pairs_map(ps.drop_last()).insert(ps.last().0@, ps.last().1@)
    }
}

/// A key is in the map exactly when some pair of `ps` carries it.
proof fn lemma_pairs_map_key(ps: Seq<(String, String)>, k: Seq<char>)
    ensures
        pairs_map(ps).contains_key(k) <==> exists|i: int|
            0 <= i < ps.len() && (#[trigger] ps[i]).0@ == k,
    decreases ps.len(),
{
    if ps.len() > 0 {
        lemma_pairs_map_key(ps.drop_last(), k);
        if ps.last().0@ == k {
            assert(ps[ps.len() - 1].0@ == k);
        } else if exists|i: int| 0 <= i < ps.len() && (#[trigger] ps[i]).0@ == k {
            let i = choose|i: int| 0 <= i < ps.len() && (#[trigger] ps[i]).0@ == k;
            assert(ps.drop_last()[i].0@ == k);
        }
    }
}

/// With unique keys, the map holds the pair `(k, v)` exactly when `ps` does.
proof fn lemma_pairs_map_pair(ps: Seq<(String, String)>, k: Seq<char>, v: Seq<char>)
    requires
        unique_keys(ps),
    ensures
        pairs_map(ps).contains_pair(k, v) <==> exists|i: int|
            0 <= i < ps.len() && (#[trigger] ps[i]).0@ == k && ps[i].1@ == v,
    decreases ps.len(),
{
    if ps.len() > 0 {
        lemma_pairs_map_pair(ps.drop_last(), k, v);
        let last = ps.len() - 1;
        if ps.last().0@ == k {
            if ps.last().1@ != v {
                if exists|i: int| 0 <= i < ps.len() && (#[trigger] ps[i]).0@ == k && ps[i].1@
                    == v {
                    let i = choose|i: int|
                        0 <= i < ps.len() && (#[trigger] ps[i]).0@ == k && ps[i].1@ == v;
                    assert(i < last ==> ps[i].0@ != ps[last].0@);
                    assert(false);
                }
            }
        } else {
            if exists|i: int| 0 <= i < ps.len() && (#[trigger] ps[i]).0@ == k && ps[i].1@ == v {
                let i = choose|i: int|
                    0 <= i < ps.len() && (#[trigger] ps[i]).0@ == k && ps[i].1@ == v;
                assert(ps.drop_last()[i].0@ == k && ps.drop_last()[i].1@ == v);
            }
        }
    }
}

/// Overwriting the pair at `j` with one carrying the same key acts on the
/// map as an insertion with that key, and keeps the keys unique.
proof fn lemma_pairs_map_update(ps: Seq<(String, String)>, j: int, p: (String, String))
    requires
        unique_keys(ps),
        0 <= j < ps.len(),
        ps[j].0@ == p.0@,
    ensures
        unique_keys(ps.update(j, p)),
        pairs_map(ps.update(j, p)) == pairs_map(ps).insert(p.0@, p.1@),
{
    let ps2 = ps.update(j, p);
    assert forall|a: int, b: int| 0 <= a < b < ps2.len() implies (#[trigger] ps2[a]).0@ != (
    #[trigger] ps2[b]).0@ by {
        assert(ps2[a].0@ == ps[a].0@);
        assert(ps2[b].0@ == ps[b].0@);
    }
    let m1 = pairs_map(ps2);
    let m2 = pairs_map(ps).insert(p.0@, p.1@);
    assert forall|k: Seq<char>| #[trigger] m1.contains_key(k) implies m2.contains_key(k) by {
        lemma_pairs_map_key(ps2, k);
        let i = choose|i: int| 0 <= i < ps2.len() && (#[trigger] ps2[i]).0@ == k;
        lemma_pairs_map_key(ps, k);
        assert(ps[i].0@ == k);
    }
    assert forall|k: Seq<char>| #[trigger] m2.contains_key(k) implies m1.contains_key(k) by {
        lemma_pairs_map_key(ps2, k);
        if k == p.0@ {
            assert(ps2[j].0@ == k);
        } else {
            lemma_pairs_map_key(ps, k);
            let i = choose|i: int| 0 <= i < ps.len() && (#[trigger] ps[i]).0@ == k;
            assert(ps2[i].0@ == k);
        }
    }
    assert forall|k: Seq<char>| m1.contains_key(k) && m2.contains_key(k) implies #[trigger] m1[k]
        == #[trigger] m2[k] by {
        if k == p.0@ {
            lemma_pairs_map_pair(ps2, k, p.1@);
            assert(ps2[j].0@ == k && ps2[j].1@ == p.1@);
            assert(m1.contains_pair(k, p.1@));
        } else {
            lemma_pairs_map_key(ps2, k);
            let i = choose|i: int| 0 <= i < ps2.len() && (#[trigger] ps2[i]).0@ == k;
            assert(i != j);
            assert(ps2[i] == ps[i]);
            lemma_pairs_map_pair(ps2, k, ps2[i].1@);
            lemma_pairs_map_pair(ps, k, ps[i].1@);
            assert(m1.contains_pair(k, ps[i].1@));
            assert(pairs_map(ps).contains_pair(k, ps[i].1@));
            assert(m2[k] == pairs_map(ps)[k]);
        }
    }
    assert(m1 =~= m2);
}

/// The map built by pairing `a1[i]` with `a2[i]` for every position, a later
/// occurrence of a key winning over an earlier one.
pub open spec fn zipped(a1: Seq<String>, a2: Seq<String>) -> Map<Seq<char>, Seq<char>>
    decreases a1.len(),
{
    if a1.len() == 0 {
        Map::empty()
    } else {
        zipped(a1.drop_last(), a2.drop_last()).insert(a1.last()@, a2.last()@)
    }
}

/// A string-keyed, string-valued map, held as pairs with pairwise distinct
/// keys.
pub struct StrMap {
    pairs: Vec<(String, String)>,
}

impl View for StrMap {
    type V = Map<Seq<char>, Seq<char>>;

    closed spec fn view(&self) -> Map<Seq<char>, Seq<char>> {
        pairs_map(self.pairs@)
    }
}

impl StrMap {
    #[verifier::type_invariant]
    spec fn inv(self) -> bool {
        unique_keys(self.pairs@)
    }
}

/// Finds the position of the pair keyed by `k`, if any.
fn find_key(pairs: &Vec<(String, String)>, k: &str) -> (r: Option<usize>)
    ensures
        match r {
            Some(j) => j < pairs@.len() && pairs@[j as int].0@ == k@,
            None => forall|q: int| 0 <= q < pairs@.len() ==> (#[trigger] pairs@[q]).0@ != k@,
        },
{
    let len = pairs.len();
    let mut j: usize = 0;
    while j < len
        invariant
            len == pairs@.len(),
            0 <= j <= len,
            forall|q: int| 0 <= q < j ==> (#[trigger] pairs@[q]).0@ != k@,
        decreases len - j,
    {
        if str_eq(pairs[j].0.as_str(), k) {
            return Some(j);
        }
        j += 1;
    }
    None
}

/// Zips two slices into a string map, pairing `arr1[i]` with `arr2[i]`; a
/// key occurring twice keeps the later value.  Slices of unequal length zip
/// to nothing.
pub fn zip_hash(arr1: &[String], arr2: &[String]) -> (r: Option<StrMap>)
    ensures
        match r {
            Some(m) => arr1@.len() == arr2@.len() && m@ == zipped(arr1@, arr2@),
            None => arr1@.len() != arr2@.len(),
        },
{
    if arr1.len() != arr2.len() {
        return None;
    }
    let n = arr1.len();
    let mut pairs: Vec<(String, String)> = Vec::new();
    let mut t: usize = 0;
    while t < n
        invariant
            n == arr1@.len(),
            n == arr2@.len(),
            0 <= t <= n,
            unique_keys(pairs@),
            pairs_map(pairs@) == zipped(arr1@.take(t as int), arr2@.take(t as int)),
        decreases n - t,
    {
        let k = arr1[t].clone();
        let v = arr2[t].clone();
        let ghost oldps = pairs@;
        match find_key(&pairs, k.as_str()) {
            Some(j) => {
                proof {
                    lemma_pairs_map_update(pairs@, j as int, (k, v));
                }
                pairs.set(j, (k, v));
            },
            None => {
                pairs.push((k, v));
                proof {
                    assert(pairs@.drop_last() =~= oldps);
                    assert(pairs@.last() == (k, v));
                    assert forall|a: int, b: int| 0 <= a < b < pairs@.len() implies (
                    #[trigger] pairs@[a]).0@ != (#[trigger] pairs@[b]).0@ by {
                        if b == pairs@.len() - 1 {
                            assert(pairs@[a] == oldps[a]);
                        }
                    }
                }
            },
        }
        proof {
            assert(arr1@.take(t + 1).drop_last() =~= arr1@.take(t as int));
            assert(arr2@.take(t + 1).drop_last() =~= arr2@.take(t as int));
            assert(arr1@.take(t + 1).last() == arr1@[t as int]);
            assert(arr2@.take(t + 1).last() == arr2@[t as int]);
        }
        t += 1;
    }
    proof {
        assert(arr1@.take(n as int) =~= arr1@);
        assert(arr2@.take(n as int) =~= arr2@);
    }
    Some(StrMap { pairs })
}

/// Strict lexicographic order on character sequences, by code point, a
/// proper prefix ordering before its extensions.
pub open spec fn lex_lt(a: Seq<char>, b: Seq<char>) -> bool
    decreases a.len(),
{
    if b.len() == 0 {
        false
    } else if a.len() == 0 {
        true
    } else if a[0] != b[0] {
        a[0] < b[0]
    } else {
        lex_lt(a.drop_first(), b.drop_first())
    }
}

/// The order is total: two sequences are ordered one way or the other, or
/// equal.
proof fn lemma_lex_total(a: Seq<char>, b: Seq<char>)
    ensures
        lex_lt(a, b) || lex_lt(b, a) || a == b,
    decreases a.len(),
{
    if a.len() > 0 && b.len() > 0 && a[0] == b[0] {
        lemma_lex_total(a.drop_first(), b.drop_first());
        if a.drop_first() == b.drop_first() {
            assert forall|i: int| 0 <= i < a.len() implies a[i] == b[i] by {
                if i > 0 {
                    assert(a.drop_first()[i - 1] == b.drop_first()[i - 1]);
                }
            }
            assert(a =~= b);
        }
    }
}

/// The order is transitive.
proof fn lemma_lex_trans(a: Seq<char>, b: Seq<char>, c: Seq<char>)
    requires
        lex_lt(a, b),
        lex_lt(b, c),
    ensures
        lex_lt(a, c),
    decreases a.len(),
{
    if a.len() > 0 && b.len() > 0 && c.len() > 0 && a[0] == b[0] && b[0] == c[0] {
        lemma_lex_trans(a.drop_first(), b.drop_first(), c.drop_first());
    }
}

/// Character-by-character lexicographic comparison of two strings.
fn str_lt(a: &str, b: &str) -> (r: bool)
    ensures
        r == lex_lt(a@, b@),
{
    let la = a.unicode_len();
    let lb = b.unicode_len();
    let mut i: usize = 0;
    proof {
        assert(a@.skip(0) =~= a@);
        assert(b@.skip(0) =~= b@);
    }
    while i < la && i < lb
        invariant
            la == a@.len(),
            lb == b@.len(),
            0 <= i <= la,
            0 <= i <= lb,
            lex_lt(a@, b@) == lex_lt(a@.skip(i as int), b@.skip(i as int)),
        decreases la - i,
    {
        let ca = a.get_char(i);
        let cb = b.get_char(i);
        proof {
            assert(a@.skip(i as int)[0] == a@[i as int]);
            assert(b@.skip(i as int)[0] == b@[i as int]);
            assert(a@.skip(i as int).drop_first() =~= a@.skip(i + 1));
            assert(b@.skip(i as int).drop_first() =~= b@.skip(i + 1));
        }
        if ca != cb {
            return ca < cb;
        }
        i += 1;
    }
    proof {
        assert(a@.skip(i as int).len() == la - i);
        assert(b@.skip(i as int).len() == lb - i);
    }
    la < lb
}

/// Finds the first position of `out` whose key is not below `key`; `out` is
/// sorted, so this is where a pair keyed by `key` belongs.
fn find_pos(out: &Vec<(String, String)>, key: &str) -> (idx: usize)
    ensures
        0 <= idx <= out@.len(),
        forall|q: int| 0 <= q < idx ==> lex_lt((#[trigger] out@[q]).0@, key@),
        idx < out@.len() ==> !lex_lt(out@[idx as int].0@, key@),
{
    let len = out.len();
    let mut idx: usize = 0;
    while idx < len
        invariant
            len == out@.len(),
            0 <= idx <= len,
            forall|q: int| 0 <= q < idx ==> lex_lt((#[trigger] out@[q]).0@, key@),
        decreases len - idx,
    {
        if !str_lt(out[idx].0.as_str(), key) {
            return idx;
        }
        idx += 1;
    }
    idx
}

/// Converts a string map into a vector of (key, value) pairs, in strictly
/// ascending key order, each pair of the map appearing exactly once.
pub fn hash_to_array(map: &StrMap) -> (r: Vec<(String, String)>)
    ensures
        forall|p: int, q: int|
            0 <= p < q < r@.len() ==> lex_lt((#[trigger] r@[p]).0@, (#[trigger] r@[q]).0@),
        forall|i: int| 0 <= i < r@.len() ==> map@.contains_pair((#[trigger] r@[i]).0@, r@[i].1@),
        forall|k: Seq<char>| #[trigger] map@.contains_key(k) ==> exists|i: int|
            0 <= i < r@.len() && (#[trigger] r@[i]).0@ == k,
{
    proof {
        use_type_invariant(map);
    }
    let ghost ps = map.pairs@;
    let n = map.pairs.len();
    let mut out: Vec<(String, String)> = Vec::new();
    let mut t: usize = 0;
    proof {
        assert(out@ =~= ps.take(0));
    }
    while t < n
        invariant
            n == map.pairs@.len(),
            ps == map.pairs@,
            unique_keys(ps),
            0 <= t <= n,
            out@.len() == t,
            out@.to_multiset() == ps.take(t as int).to_multiset(),
            forall|p: int, q: int|
                0 <= p < q < out@.len() ==> lex_lt((#[trigger] out@[p]).0@, (
                #[trigger] out@[q]).0@),
        decreases n - t,
    {
        let p = (map.pairs[t].0.clone(), map.pairs[t].1.clone());
        proof {
            assert(p == ps[t as int]);
        }
        let idx = find_pos(&out, p.0.as_str());
        proof {
            broadcast use group_to_multiset_ensures;

            if idx < out@.len() {
                assert(out@.contains(out@[idx as int]));
                assert(ps.take(t as int).to_multiset().count(out@[idx as int]) > 0);
                assert(ps.take(t as int).contains(out@[idx as int]));
                let w = choose|w: int|
                    0 <= w < t && #[trigger] ps.take(t as int)[w] == out@[idx as int];
                assert(ps[w] == out@[idx as int]);
                assert(ps[w].0@ != ps[t as int].0@);
                lemma_lex_total(p.0@, out@[idx as int].0@);
                assert(lex_lt(p.0@, out@[idx as int].0@));
            }
            assert forall|q: int| idx < q < out@.len() implies lex_lt(
                p.0@,
                (#[trigger] out@[q]).0@,
            ) by {
                lemma_lex_trans(p.0@, out@[idx as int].0@, out@[q].0@);
            }
            to_multiset_insert(out@, idx as int, p);
            assert(ps.take(t + 1).drop_last() =~= ps.take(t as int));
            assert(ps.take(t + 1) =~= ps.take(t as int).push(ps[t as int]));
        }
        let ghost oldout = out@;
        out.insert(idx, p);
        proof {
            broadcast use group_to_multiset_ensures;

            assert(out@.to_multiset() == ps.take(t + 1).to_multiset());
            assert forall|a: int, b: int| 0 <= a < b < out@.len() implies lex_lt(
                (#[trigger] out@[a]).0@,
                (#[trigger] out@[b]).0@,
            ) by {
                if a == idx {
                    assert(out@[b] == oldout[b - 1]);
                } else if b == idx {
                    assert(out@[a] == oldout[a]);
                } else if a < idx && b > idx {
                    assert(out@[a] == oldout[a] && out@[b] == oldout[b - 1]);
                } else if a > idx {
                    assert(out@[a] == oldout[a - 1] && out@[b] == oldout[b - 1]);
                }
            }
        }
        t += 1;
    }
    proof {
        broadcast use group_to_multiset_ensures;

        assert(ps.take(n as int) =~= ps);
        assert forall|i: int| 0 <= i < out@.len() implies map@.contains_pair(
            (#[trigger] out@[i]).0@,
            out@[i].1@,
        ) by {
            assert(out@.contains(out@[i]));
            assert(ps.to_multiset().count(out@[i]) > 0);
            assert(ps.contains(out@[i]));
            let w = choose|w: int| 0 <= w < ps.len() && #[trigger] ps[w] == out@[i];
            lemma_pairs_map_pair(ps, out@[i].0@, out@[i].1@);
        }
        assert forall|k: Seq<char>| #[trigger] map@.contains_key(k) implies exists|i: int|
            0 <= i < out@.len() && (#[trigger] out@[i]).0@ == k by {
            lemma_pairs_map_key(ps, k);
            let w = choose|w: int| 0 <= w < ps.len() && (#[trigger] ps[w]).0@ == k;
            assert(ps.contains(ps[w]));
            assert(out@.to_multiset().count(ps[w]) > 0);
            assert(out@.contains(ps[w]));
            let i = choose|i: int| 0 <= i < out@.len() && #[trigger] out@[i] == ps[w];
            assert(out@[i].0@ == k);
        }
    }
    out
}

} // verus!
