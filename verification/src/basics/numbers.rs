//! Numeric functions.
use vstd::prelude::*;
use rayon::prelude::{IntoParallelIterator, ParallelIterator};

verus! {

/// Two to the power `k`.
pub open spec fn two_pow(k: nat) -> nat
    decreases k,
{
    if k == 0 {
        1
    } else {
        2 * two_pow((k - 1) as nat)
    }
}

proof fn lemma_two_pow_monotonic(a: nat, b: nat)
    requires
        a <= b,
    ensures
        two_pow(a) <= two_pow(b),
    decreases b - a,
{
    if a < b {
        lemma_two_pow_monotonic(a, (b - 1) as nat);
    }
}

/// `(i + 1)` doubled ten times.
pub fn do_math(i: u32) -> (r: u32)
    requires
        (i + 1) * 1024 <= u32::MAX,
    ensures
        r == (i + 1) * 1024,
{
    proof {
        reveal_with_fuel(two_pow, 11);
        assert(two_pow(10) == 1024);
    }
    let mut x = i + 1;
    let mut k: u32 = 0;
    assert(x == (i + 1) * two_pow(0)) by {
        assert(two_pow(0) == 1);
    }
    while k < 10
        invariant
            k <= 10,
            (i + 1) * 1024 <= u32::MAX,
            two_pow(10) == 1024,
            x == (i + 1) * two_pow(k as nat),
        decreases 10 - k,
    {
        proof {
            lemma_two_pow_monotonic((k + 1) as nat, 10);
            assert(two_pow((k + 1) as nat) == 2 * two_pow(k as nat));
            assert(x * 2 == (i + 1) * two_pow((k + 1) as nat)) by (nonlinear_arith)
                requires
                    x == (i + 1) * two_pow(k as nat),
                    two_pow((k + 1) as nat) == 2 * two_pow(k as nat),
            ;
            assert((i + 1) * two_pow((k + 1) as nat) <= (i + 1) * 1024) by (nonlinear_arith)
                requires
                    two_pow((k + 1) as nat) <= 1024,
                    i + 1 >= 0,
            ;
        }
        x = x * 2;
        k = k + 1;
    }
    x
}

/// The names of the first users.
pub fn build_users() -> (r: Vec<String>)
    ensures
        r@.len() == 2,
        r@[0]@ == "Ana"@,
        r@[1]@ == "Jane"@,
{
    let mut v: Vec<String> = Vec::new();
    v.push(String::from_str("Ana"));
    v.push(String::from_str("Jane"));
    v
}

/// The Fibonacci numbers: 0, 1, 1, 2, 3, 5, ...
pub open spec fn fib(n: nat) -> nat
    decreases n,
{
    if n == 0 {
        0
    } else if n == 1 {
        1
    } else {
        fib((n - 1) as nat) + fib((n - 2) as nat)
    }
}

proof fn lemma_fib_monotonic(i: nat, j: nat)
    requires
        i <= j,
    ensures
        fib(i) <= fib(j),
    decreases j - i,
{
    if j < 2 {
    } else if i == j {
    } else if i == j - 1 {
    } else {
        lemma_fib_monotonic(i, (j - 1) as nat);
        lemma_fib_monotonic(i, (j - 2) as nat);
    }
}

/// The `n`-th Fibonacci number, by the defining recursion.
pub fn fibonacci(n: u32) -> (r: u32)
    requires
        fib(n as nat) <= u32::MAX,
    ensures
        r == fib(n as nat),
    decreases n,
{
    if n == 0 {
        0
    } else if n == 1 {
        1
    } else {
        proof {
            lemma_fib_monotonic((n - 1) as nat, n as nat);
            lemma_fib_monotonic((n - 2) as nat, n as nat);
        }
        fibonacci(n - 1) + fibonacci(n - 2)
    }
}

/// Whether `i` does not divide `n`.
pub fn does_not_divide(n: u32, i: u32) -> (r: bool)
    requires
        i > 0,
    ensures
        r == (n % i != 0),
{
    n % i != 0
}

/// No number from 2 to `n / 2` divides `n`.
pub open spec fn no_small_divisor(n: u32) -> bool {
    forall|i: u32| 2 <= i <= n / 2 ==> #[trigger] (n % i) != 0
}

/// `rayon`'s parallel `all` over the range `lo..=hi`: whether no number in it
/// divides `n`. `all` returns true exactly when the predicate holds of every item.
#[verifier::external_body]
fn par_no_divisor(n: u32, lo: u32, hi: u32) -> (r: bool)
    requires
        lo >= 1,
    ensures
        r == (forall|i: u32| lo <= i <= hi ==> #[trigger] (n % i) != 0),
{
    (lo..=hi).into_par_iter().all(|i| does_not_divide(n, i))
}

/// Whether no number from 2 to `n / 2` divides `n` (true for 0 to 3 and for primes).
pub fn is_prime(n: u32) -> (r: bool)
    ensures
        r == no_small_divisor(n),
{
    let r = par_no_divisor(n, 2, n / 2);
    proof {
        assert(r == no_small_divisor(n));
    }
    r
}

} // verus!
