//! The most frequent character of a string.
use vstd::prelude::*;
use vstd::string::StrSliceExecFns;

verus! {

/// How many times the character `c` occurs in `s`.
pub open spec fn count_ch(s: Seq<char>, c: char) -> nat
    decreases s.len(),
{
    if s.len() == 0 {
        0
    } else {
        count_ch(s.drop_last(), c) + if s.last() == c {
            1nat
        } else {
            0nat
        }
    }
}

/// How many times the character at position `j` of `s` occurs in all of `s`.
pub open spec fn cnt_at(s: Seq<char>, j: int) -> nat {
    count_ch(s, s[j])
}

/// Counts the occurrences of `c` in `s`.
fn count_occurrences(s: &str, c: char) -> (cnt: usize)
    ensures
        cnt == count_ch(s@, c),
{
    let l = s.unicode_len();
    let mut cnt: usize = 0;
    let mut j: usize = 0;
    while j < l
        invariant
            l == s@.len(),
            0 <= j <= l,
            cnt == count_ch(s@.take(j as int), c),
            cnt <= j,
        decreases l - j,
    {
        proof {
            assert(s@.take(j + 1).drop_last() =~= s@.take(j as int));
            assert(s@.take(j + 1).last() == s@[j as int]);
        }
        if s.get_char(j) == c {
            cnt += 1;
        }
        j += 1;
    }
    proof {
        assert(s@.take(l as int) =~= s@);
    }
    cnt
}

/// Returns a one-character String containing the most frequent character in
/// `s`, or an empty String when `s` is empty.
///
/// Among equally frequent characters, the one occurring first wins.
pub fn freq(s: &str) -> (r: String)
    ensures
        s@.len() == 0 ==> r@ == Seq::<char>::empty(),
        s@.len() > 0 ==> exists|i: int|
            #![trigger cnt_at(s@, i)]
            0 <= i < s@.len() && r@ == seq![s@[i]] && (forall|j: int|
                0 <= j < s@.len() ==> #[trigger] cnt_at(s@, j) <= cnt_at(s@, i)) && (forall|j: int|
                0 <= j < i ==> #[trigger] cnt_at(s@, j) < cnt_at(s@, i)),
{
    let l = s.unicode_len();
    if l == 0 {
        return String::new();
    }
    let mut best_i: usize = 0;
    let mut best_cnt = count_occurrences(s, s.get_char(0));
    let mut k: usize = 1;
    while k < l
        invariant
            l == s@.len(),
            0 < l,
            0 <= best_i < k <= l,
            best_cnt == cnt_at(s@, best_i as int),
            forall|j: int| 0 <= j < k ==> #[trigger] cnt_at(s@, j) <= best_cnt,
            forall|j: int| 0 <= j < best_i ==> #[trigger] cnt_at(s@, j) < best_cnt,
        decreases l - k,
    {
        let c = s.get_char(k);
        let cnt = count_occurrences(s, c);
        proof {
            assert(cnt == cnt_at(s@, k as int));
        }
        if cnt > best_cnt {
            best_i = k;
            best_cnt = cnt;
        }
        k += 1;
    }
    let res = s.substring_char(best_i, best_i + 1).to_owned();
    proof {
        assert(res@ =~= seq![s@[best_i as int]]);
    }
    res
}

} // verus!
