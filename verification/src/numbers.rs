//! Fibonacci prefixes and decimal-palindrome testing on `u32`.
use vstd::prelude::*;

verus! {

/// The Fibonacci sequence: 0, 1, 1, 2, 3, 5, ...
pub open spec fn fib_spec(n: nat) -> nat
    decreases n,
{
    if n == 0 {
        0
    } else if n == 1 {
        1
    } else {
        fib_spec((n - 1) as nat) + fib_spec((n - 2) as nat)
    }
}

/// The Fibonacci sequence never decreases.
pub proof fn lemma_fib_mono(i: nat, j: nat)
    requires
        i <= j,
    ensures
        fib_spec(i) <= fib_spec(j),
    decreases j,
{
    if i < j && j >= 2 {
        lemma_fib_mono(i, (j - 1) as nat);
    }
}

/// The 48 Fibonacci numbers up to `fib_spec(47)` all fit in a `u32`.
pub proof fn lemma_fib_fits_u32(i: nat)
    requires
        i <= 47,
    ensures
        fib_spec(i) <= 0xffff_ffff,
{
    assert(fib_spec(0) == 0);
    assert(fib_spec(1) == 1);
    assert(fib_spec(2) == 1);
    assert(fib_spec(3) == 2);
    assert(fib_spec(4) == 3);
    assert(fib_spec(5) == 5);
    assert(fib_spec(6) == 8);
    assert(fib_spec(7) == 13);
    assert(fib_spec(8) == 21);
    assert(fib_spec(9) == 34);
    assert(fib_spec(10) == 55);
    assert(fib_spec(11) == 89);
    assert(fib_spec(12) == 144);
    assert(fib_spec(13) == 233);
    assert(fib_spec(14) == 377);
    assert(fib_spec(15) == 610);
    assert(fib_spec(16) == 987);
    assert(fib_spec(17) == 1597);
    assert(fib_spec(18) == 2584);
    assert(fib_spec(19) == 4181);
    assert(fib_spec(20) == 6765);
    assert(fib_spec(21) == 10946);
    assert(fib_spec(22) == 17711);
    assert(fib_spec(23) == 28657);
    assert(fib_spec(24) == 46368);
    assert(fib_spec(25) == 75025);
    assert(fib_spec(26) == 121393);
    assert(fib_spec(27) == 196418);
    assert(fib_spec(28) == 317811);
    assert(fib_spec(29) == 514229);
    assert(fib_spec(30) == 832040);
    assert(fib_spec(31) == 1346269);
    assert(fib_spec(32) == 2178309);
    assert(fib_spec(33) == 3524578);
    assert(fib_spec(34) == 5702887);
    assert(fib_spec(35) == 9227465);
    assert(fib_spec(36) == 14930352);
    assert(fib_spec(37) == 24157817);
    assert(fib_spec(38) == 39088169);
    assert(fib_spec(39) == 63245986);
    assert(fib_spec(40) == 102334155);
    assert(fib_spec(41) == 165580141);
    assert(fib_spec(42) == 267914296);
    assert(fib_spec(43) == 433494437);
    assert(fib_spec(44) == 701408733);
    assert(fib_spec(45) == 1134903170);
    assert(fib_spec(46) == 1836311903);
    assert(fib_spec(47) == 2971215073);
    lemma_fib_mono(i, 47);
}

/// Returns the first `n` Fibonacci numbers.
///
/// `fib_spec(48)` overflows a `u32`, so at most the first 48 can be asked
/// for.
pub fn fib(n: u32) -> (r: Vec<u32>)
    requires
        n <= 48,
    ensures
        r@.len() == n,
        forall|i: int| 0 <= i < n ==> r@[i] == fib_spec(i as nat),
{
    let mut result: Vec<u32> = Vec::new();
    if n == 0 {
        return result;
    }
    result.push(0);
    if n == 1 {
        return result;
    }
    result.push(1);
    if n == 2 {
        return result;
    }
    let mut i: usize = 2;
    while i < n as usize
        invariant
            2 <= i <= n <= 48,
            result@.len() == i,
            forall|k: int| 0 <= k < i ==> result@[k] == fib_spec(k as nat),
        decreases n - i,
    {
        proof {
            lemma_fib_fits_u32(i as nat);
            assert(fib_spec(i as nat) == fib_spec((i - 1) as nat) + fib_spec((i - 2) as nat));
        }
        let next = result[i - 1] + result[i - 2];
        result.push(next);
        i += 1;
    }
    result
}

/// The decimal digits of `n`, least significant first; zero has the single
/// digit 0.
pub open spec fn digits(n: nat) -> Seq<int>
    decreases n,
{
    if n < 10 {
        seq![n as int]
    } else {
        seq![(n % 10) as int] + digits(n / 10)
    }
}

/// A number reads the same forwards and backwards in decimal exactly when
/// its digit sequence equals its own reverse.
pub open spec fn palindrome(n: nat) -> bool {
    digits(n) == digits(n).reverse()
}

/// Returns true if `n` is a palindrome, false otherwise.
pub fn is_palindrome(n: u32) -> (r: bool)
    ensures
        r == palindrome(n as nat),
{
    let mut ds: Vec<u32> = Vec::new();
    ds.push(n % 10);
    let mut m: u32 = n / 10;
    proof {
        if m == 0 {
            assert(digits(n as nat) =~= ds@.map_values(|d: u32| d as int));
        } else {
            assert(digits(n as nat) =~= ds@.map_values(|d: u32| d as int) + digits(m as nat));
        }
    }
    while m > 0
        invariant
            m > 0 ==> digits(n as nat) == ds@.map_values(|d: u32| d as int) + digits(m as nat),
            m == 0 ==> digits(n as nat) == ds@.map_values(|d: u32| d as int),
            ds@.len() >= 1,
        decreases m,
    {
        let ghost prev = ds@.map_values(|d: u32| d as int);
        ds.push(m % 10);
        proof {
            assert(ds@.map_values(|d: u32| d as int) =~= prev + seq![(m % 10) as int]);
            if m >= 10 {
                assert(digits(m as nat) =~= seq![(m % 10) as int] + digits((m / 10) as nat));
                assert(prev + seq![(m % 10) as int] + digits((m / 10) as nat) =~= prev + digits(
                    m as nat,
                ));
            } else {
                assert(digits(m as nat) =~= seq![(m % 10) as int]);
            }
        }
        m = m / 10;
    }
    let ghost dseq = ds@.map_values(|d: u32| d as int);
    let len = ds.len();
    let mut i: usize = 0;
    while i < len
        invariant
            len == ds@.len(),
            dseq == ds@.map_values(|d: u32| d as int),
            digits(n as nat) == dseq,
            0 <= i <= len,
            forall|j: int| 0 <= j < i ==> #[trigger] dseq[j] == dseq[len - 1 - j],
        decreases len - i,
    {
        if ds[i] != ds[len - 1 - i] {
            proof {
                assert(dseq.reverse()[i as int] == dseq[len - 1 - i]);
                assert(dseq != dseq.reverse());
            }
            return false;
        }
        i += 1;
    }
    proof {
        assert(dseq =~= dseq.reverse());
    }
    true
}

} // verus!
