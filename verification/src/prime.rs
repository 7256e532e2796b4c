//! Primes, for sizing hash tables.

use vstd::prelude::*;

verus! {

/// Whether `n` is a prime number.
pub open spec fn is_prime_spec(n: int) -> bool {
    n >= 2 && forall|d: int| 2 <= d < n ==> #[trigger] (n % d) != 0
}

/// Whether `p` is the smallest prime from `n` upwards.
pub open spec fn least_prime_from(p: int, n: int) -> bool {
    n <= p && is_prime_spec(p) && forall|m: int| n <= m < p ==> !is_prime_spec(m)
}

/// The smallest prime from `n` upwards, if one fits the machine word.
pub open spec fn least_prime(n: int) -> Option<int> {
    if exists|p: int| least_prime_from(p, n) && p <= usize::MAX {
        Some(choose|p: int| least_prime_from(p, n) && p <= usize::MAX)
    } else {
        None
    }
}

/// There is one smallest prime from `n` upwards at most.
pub proof fn lemma_least_prime(p: int, n: int)
    requires
        least_prime_from(p, n),
        p <= usize::MAX,
    ensures
        least_prime(n) == Some(p),
{
    let q = choose|q: int| least_prime_from(q, n) && q <= usize::MAX;
    if q < p {
        assert(!is_prime_spec(q));
    } else if p < q {
        assert(!is_prime_spec(p));
    }
}

/// A proper divisor of `n` has a cofactor, which divides `n` too; the
/// smaller of the two, squared, does not exceed `n`.
proof fn lemma_cofactor(n: int, d: int)
    requires
        2 <= d < n,
        n % d == 0,
    ensures
        2 <= n / d < n,
        n % (n / d) == 0,
        d * (n / d) == n,
{
    let q = n / d;
    assert(n == d * q) by {
        vstd::arithmetic::div_mod::lemma_fundamental_div_mod(n, d);
    }
    assert(q >= 2 && q < n) by (nonlinear_arith)
        requires
            n == d * q,
            2 <= d < n,
    ;
    assert(n % q == 0) by {
        assert(n == d * q + 0);
        vstd::arithmetic::div_mod::lemma_fundamental_div_mod_converse(n, q, d, 0);
    }
}

/// Trial division up to the square root settles primality.
proof fn lemma_trial_division(n: int, bound: int)
    requires
        n >= 2,
        bound >= 2,
        bound * bound > n,
        forall|d: int| 2 <= d < bound ==> #[trigger] (n % d) != 0,
    ensures
        is_prime_spec(n),
{
    assert forall|d: int| 2 <= d < n implies #[trigger] (n % d) != 0 by {
        if n % d == 0 {
            lemma_cofactor(n, d);
            let q = n / d;
            if d >= bound && q >= bound {
                assert(d * q >= bound * bound) by (nonlinear_arith)
                    requires
                        d >= bound,
                        q >= bound,
                        bound >= 2,
                ;
            }
            if d < bound {
                assert(n % d != 0);
            } else {
                assert(n % q != 0);
            }
        }
    }
}

/// Decides whether `n` is prime, by trial division.
pub fn is_prime(n: usize) -> (prime: bool)
    ensures
        prime == is_prime_spec(n as int),
{
    if n < 2 {
        return false;
    }
    let mut i: usize = 2;
    while i <= n / i
        invariant
            2 <= i <= n,
            forall|d: int| 2 <= d < i ==> #[trigger] (n as int % d) != 0,
        decreases n - i,
    {
        if n % i == 0 {
            assert(i < n) by (nonlinear_arith)
                requires
                    2 <= i <= n / i,
                    n >= 2,
            ;
            return false;
        }
        assert(i < n) by (nonlinear_arith)
            requires
                2 <= i <= n / i,
                n >= 2,
        ;
        i += 1;
    }
    proof {
        assert((i as int) * (i as int) > n) by (nonlinear_arith)
            requires
                i > n as int / i as int,
                i >= 2,
                n >= 2,
        ;
        lemma_trial_division(n as int, i as int);
    }
    true
}

/// The smallest prime from `n` upwards: `Some(p)` with the least prime
/// `p >= n`, or `None` where no prime from `n` upwards fits the machine word.
pub fn find_prime(n: usize) -> (found: Option<usize>)
    ensures
        match found {
            Some(p) => least_prime(n as int) == Some(p as int) && least_prime_from(
                p as int,
                n as int,
            ),
            None => least_prime(n as int) is None && forall|m: int|
                n <= m <= usize::MAX ==> !is_prime_spec(m),
        },
{
    let mut candidate = n;
    loop
        invariant
            n <= candidate,
            forall|m: int| n <= m < candidate ==> !is_prime_spec(m),
        decreases usize::MAX - candidate,
    {
        if is_prime(candidate) {
            proof {
                lemma_least_prime(candidate as int, n as int);
            }
            return Some(candidate);
        }
        if candidate == usize::MAX {
            return None;
        }
        candidate += 1;
    }
}

} // verus!
