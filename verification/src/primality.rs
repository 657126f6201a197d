//! Prime numbers as a mathematical notion: what it means to be prime, how the
//! primes are counted, and the facts that justify trial division.

use vstd::arithmetic::div_mod::*;
use vstd::arithmetic::mul::*;
use vstd::prelude::*;

verus! {

/// `n` is prime: at least two, and no number strictly between one and `n`
/// divides it.
pub open spec fn is_prime(n: nat) -> bool {
    n >= 2 && forall|d: nat| 2 <= d < n ==> #[trigger] (n % d) != 0
}

/// How many primes are strictly smaller than `n`.
pub open spec fn primes_below(n: nat) -> nat
    decreases n,
{
    if n == 0 {
        0
    } else if is_prime((n - 1) as nat) {
        primes_below((n - 1) as nat) + 1
    } else {
        primes_below((n - 1) as nat)
    }
}

/// `p` is the prime number with index `k`, counting from zero: the primes
/// with indices 0, 1, 2, 3 are 2, 3, 5, 7.
pub open spec fn is_nth_prime(k: nat, p: nat) -> bool {
    is_prime(p) && primes_below(p) == k
}

/// One more than the largest value of a `u64`.
pub open spec fn u64_limit() -> nat {
    0x1_0000_0000_0000_0000
}

/// Counting primes below a larger bound never gives less.
pub proof fn lemma_primes_below_monotonic(a: nat, b: nat)
    requires
        a <= b,
    ensures
        primes_below(a) <= primes_below(b),
    decreases b,
{
    if a < b {
        lemma_primes_below_monotonic(a, (b - 1) as nat);
    }
}

/// A prime is counted by every bound above it.
pub proof fn lemma_primes_below_counts_prime(p: nat, b: nat)
    requires
        is_prime(p),
        p < b,
    ensures
        primes_below(p) < primes_below(b),
{
    lemma_primes_below_monotonic(p + 1, b);
}

/// Where no number from `a` up to `b` is prime, the count does not move.
pub proof fn lemma_primes_below_gap(a: nat, b: nat)
    requires
        a <= b,
        forall|x: nat| a <= x < b ==> !is_prime(x),
    ensures
        primes_below(b) == primes_below(a),
    decreases b,
{
    if a < b {
        lemma_primes_below_gap(a, (b - 1) as nat);
    }
}

/// Each index names at most one prime.
pub proof fn lemma_nth_prime_unique(k: nat, p: nat, q: nat)
    requires
        is_nth_prime(k, p),
        is_nth_prime(k, q),
    ensures
        p == q,
{
    if p < q {
        lemma_primes_below_counts_prime(p, q);
    } else if q < p {
        lemma_primes_below_counts_prime(q, p);
    }
}

/// The primes come in increasing order of their indices.
pub proof fn lemma_nth_prime_increasing(i: nat, j: nat, p: nat, q: nat)
    requires
        is_nth_prime(i, p),
        is_nth_prime(j, q),
        i < j,
    ensures
        p < q,
{
    if q <= p {
        lemma_primes_below_monotonic(q, p);
    }
}

/// Two and three are the first two primes.
pub proof fn lemma_first_primes()
    ensures
        is_nth_prime(0, 2),
        is_nth_prime(1, 3),
{
    reveal_with_fuel(primes_below, 4);
}

/// A prime other than two is odd.
pub proof fn lemma_prime_above_two_is_odd(p: nat)
    requires
        is_prime(p),
        p > 2,
    ensures
        p % 2 == 1,
{
}

/// An even number above two is not prime.
pub proof fn lemma_even_not_prime(n: nat)
    requires
        n > 2,
        n % 2 == 0,
    ensures
        !is_prime(n),
{
}

/// Divisibility carries over from a divisor to whatever it divides.
pub proof fn lemma_divides_transitive(a: nat, b: nat, c: nat)
    requires
        a > 0,
        b > 0,
        b % a == 0,
        c % b == 0,
    ensures
        c % a == 0,
{
    let u = b / a;
    let v = c / b;
    lemma_fundamental_div_mod(b as int, a as int);
    lemma_fundamental_div_mod(c as int, b as int);
    lemma_mul_is_associative(a as int, u as int, v as int);
    lemma_mod_multiples_basic((u * v) as int, a as int);
    lemma_mul_is_commutative(a as int, (u * v) as int);
}

/// A number of at least two that is not prime has a prime divisor whose
/// square does not exceed it.
pub proof fn lemma_composite_has_small_prime_factor(n: nat) -> (q: nat)
    requires
        n >= 2,
        !is_prime(n),
    ensures
        is_prime(q),
        n % q == 0,
        q * q <= n,
    decreases n,
{
    let d = choose|d: nat| 2 <= d < n && #[trigger] (n % d) == 0;
    let e = n / d;
    lemma_fundamental_div_mod(n as int, d as int);
    assert(e >= 2 && e < n && d * e == n) by (nonlinear_arith)
        requires
            n == d * e,
            2 <= d < n,
    ;
    assert(n % e == 0) by {
        lemma_mod_multiples_basic(d as int, e as int);
    }
    let m = if d <= e { d } else { e };
    assert(m * m <= n) by (nonlinear_arith)
        requires
            n == d * e,
            m == if d <= e { d } else { e },
    ;
    if is_prime(m) {
        m
    } else {
        let q = lemma_composite_has_small_prime_factor(m);
        lemma_divides_transitive(q, m, n);
        q
    }
}

} // verus!
