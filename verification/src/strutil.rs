//! Character-level string helpers: equality and prefix tests over `&str`,
//! verified against the `Seq<char>` views.
use vstd::prelude::*;
use vstd::string::StrSliceExecFns;

verus! {

/// True when `n` begins with the characters of `ac` immediately followed by
/// a hyphen.
pub open spec fn dash_prefixed(n: Seq<char>, ac: Seq<char>) -> bool {
    &&& n.len() > ac.len()
    &&& n.subrange(0, ac.len() as int) == ac
    &&& n[ac.len() as int] == '-'
}

/// Character-by-character string equality, proved equivalent to equality of
/// the views.
pub fn str_eq(a: &str, b: &str) -> (r: bool)
    ensures
        r == (a@ == b@),
{
    let la = a.unicode_len();
    let lb = b.unicode_len();
    if la != lb {
        return false;
    }
    let mut i: usize = 0;
    while i < la
        invariant
            la == a@.len(),
            la == b@.len(),
            0 <= i <= la,
            forall|j: int| 0 <= j < i ==> a@[j] == b@[j],
        decreases la - i,
    {
        if a.get_char(i) != b.get_char(i) {
            return false;
        }
        i += 1;
    }
    proof {
        assert(a@ =~= b@);
    }
    true
}

/// True when `n` consists of `ac`, then a hyphen, then anything.
pub fn starts_with_dashed(n: &str, ac: &str) -> (r: bool)
    ensures
        r == dash_prefixed(n@, ac@),
{
    let ln = n.unicode_len();
    let la = ac.unicode_len();
    if ln <= la {
        return false;
    }
    let mut i: usize = 0;
    while i < la
        invariant
            ln == n@.len(),
            la == ac@.len(),
            ln > la,
            0 <= i <= la,
            forall|j: int| 0 <= j < i ==> n@[j] == ac@[j],
        decreases la - i,
    {
        if n.get_char(i) != ac.get_char(i) {
            return false;
        }
        i += 1;
    }
    if n.get_char(la) != '-' {
        return false;
    }
    proof {
        assert(n@.subrange(0, ac@.len() as int) =~= ac@);
    }
    true
}

} // verus!
