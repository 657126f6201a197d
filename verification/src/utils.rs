//! The prime source: the primes in increasing order, found by trial division
//! against the primes found so far.

use crate::primality::{
    is_nth_prime, is_prime, lemma_composite_has_small_prime_factor, lemma_even_not_prime,
    lemma_first_primes, lemma_nth_prime_increasing, lemma_nth_prime_unique,
    lemma_prime_above_two_is_odd, lemma_primes_below_counts_prime, lemma_primes_below_gap,
    lemma_primes_below_monotonic, primes_below, u64_limit,
};
use vstd::prelude::*;

verus! {

/// A cursor over the primes `2, 3, 5, 7, 11, ...` that caches every prime it
/// has found.
pub struct PrimeSeq {
    primes: Vec<u64>,
    index: usize,
}

/// `cache` holds the primes with indices `0 .. cache.len()`, in order, and
/// at least the first two of them.
pub open spec fn is_prime_cache(cache: Seq<u64>) -> bool {
    &&& cache.len() >= 2
    &&& forall|i: int| 0 <= i < cache.len() ==> is_nth_prime(i as nat, #[trigger] cache[i] as nat)
}

/// Every prime up to the last cached one is in the cache, at its index.
proof fn lemma_cache_is_complete(cache: Seq<u64>, q: nat)
    requires
        is_prime_cache(cache),
        is_prime(q),
        q <= cache.last(),
    ensures
        primes_below(q) < cache.len(),
        cache[primes_below(q) as int] == q,
{
    let last = cache.last() as nat;
    lemma_primes_below_monotonic(q, last);
    let j = primes_below(q);
    lemma_nth_prime_unique(j, q, cache[j as int] as nat);
}

/// Trial division: whether `x` is prime, decided by dividing it by the cached
/// primes up to its square root.
///
/// The candidate must lie above the cache, with no prime between the cache's
/// last entry and itself.
fn is_prime_by_trial_division(cache: &Vec<u64>, x: u64) -> (r: bool)
    requires
        is_prime_cache(cache@),
        cache@.last() < x,
        forall|y: nat| cache@.last() < y < x ==> !is_prime(y),
    ensures
        r == is_prime(x as nat),
{
    let n = cache.len();
    let mut i: usize = 0;
    while i < n
        invariant
            i <= n,
            n == cache.len(),
            is_prime_cache(cache@),
            cache@.last() < x,
            forall|y: nat| cache@.last() < y < x ==> !is_prime(y),
            forall|j: int| 0 <= j < i ==> x as nat % (#[trigger] cache[j] as nat) != 0,
        decreases n - i,
    {
        let p = cache[i];
        proof {
            if i < n - 1 {
                lemma_nth_prime_increasing(i as nat, (n - 1) as nat, p as nat, cache@.last() as nat);
            }
        }
        if x % p == 0 {
            return false;
        }
        assert(p * p <= u128::MAX) by (nonlinear_arith)
            requires
                p <= u64::MAX,
        ;
        if (p as u128) * (p as u128) > x as u128 {
            proof {
                if !is_prime(x as nat) {
                    let q = lemma_composite_has_small_prime_factor(x as nat);
                    assert(q < p) by (nonlinear_arith)
                        requires
                            q * q <= x,
                            x < p * p,
                    ;
                    lemma_divisor_was_tried(cache@, x as nat, q, i as nat);
                }
            }
            return true;
        }
        i += 1;
    }
    proof {
        if !is_prime(x as nat) {
            let q = lemma_composite_has_small_prime_factor(x as nat);
            assert(q < x) by (nonlinear_arith)
                requires
                    q * q <= x,
                    q >= 2,
            ;
            lemma_cache_is_complete(cache@, q);
        }
    }
    true
}

/// A prime divisor of `x` below the cached prime with index `i` is one of the
/// cached primes before it.
proof fn lemma_divisor_was_tried(cache: Seq<u64>, x: nat, q: nat, i: nat)
    requires
        is_prime_cache(cache),
        i < cache.len(),
        is_prime(q),
        q < cache[i as int],
        x % q == 0,
    ensures
        exists|j: int| 0 <= j < i && x % (#[trigger] cache[j] as nat) == 0,
{
    let p = cache[i as int] as nat;
    if i < cache.len() - 1 {
        lemma_nth_prime_increasing(i, (cache.len() - 1) as nat, p, cache.last() as nat);
    }
    lemma_cache_is_complete(cache, q);
    lemma_primes_below_counts_prime(q, p);
}

impl PrimeSeq {
    /// The cache is in order and the cursor has not run past it.
    pub closed spec fn inv(&self) -> bool {
        &&& is_prime_cache(self.primes@)
        &&& self.index <= self.primes.len()
    }

    /// How many primes the cursor has handed out: the index of the prime
    /// that comes next.
    pub closed spec fn position(&self) -> nat {
        self.index as nat
    }

    /// A cursor that stands before the first prime.
    pub fn new() -> (s: Self)
        ensures
            s.inv(),
            s.position() == 0,
    {
        let mut primes: Vec<u64> = Vec::new();
        primes.push(2);
        primes.push(3);
        proof {
            lemma_first_primes();
        }
        PrimeSeq { primes, index: 0 }
    }

    /// The next prime, or `None` once the next prime no longer fits in a
    /// `u64`; then the cursor stays where it is.
    pub fn next(&mut self) -> (r: Option<u64>)
        requires
            old(self).inv(),
        ensures
            final(self).inv(),
            r is None <==> primes_below(u64_limit()) <= old(self).position(),
            match r {
                Some(p) => is_nth_prime(old(self).position(), p as nat) && final(self).position()
                    == old(self).position() + 1,
                None => final(self).position() == old(self).position(),
            },
    {
        while self.primes.len() <= self.index
            invariant
                self.inv(),
                self.index == old(self).index,
            decreases self.index + 1 - self.primes.len(),
        {
            let last = self.primes[self.primes.len() - 1];
            proof {
                if self.primes.len() > 2 {
                    lemma_nth_prime_increasing(
                        1,
                        (self.primes.len() - 1) as nat,
                        self.primes@[1] as nat,
                        last as nat,
                    );
                }
                lemma_first_primes();
                lemma_nth_prime_unique(1, 3, self.primes@[1] as nat);
                lemma_prime_above_two_is_odd(last as nat);
            }
            let mut x = last;
            let mut found = false;
            while !found
                invariant
                    self.inv(),
                    self.index == old(self).index,
                    !found ==> last == self.primes@.last(),
                    last >= 3,
                    last <= x,
                    x % 2 == 1,
                    !found ==> self.primes.len() <= self.index,
                    !found ==> forall|y: nat| last < y <= x ==> !is_prime(y),
                    found ==> self.primes.len() == self.index + 1,
                decreases u64::MAX - x + (if found { 0int } else { 1int }),
            {
                if x > u64::MAX - 2 {
                    proof {
                        assert forall|y: nat| last < y < u64_limit() implies !is_prime(y) by {}
                        lemma_primes_below_gap((last + 1) as nat, u64_limit());
                    }
                    return None;
                }
                x += 2;
                proof {
                    lemma_even_not_prime((x - 1) as nat);
                }
                if is_prime_by_trial_division(&self.primes, x) {
                    proof {
                        lemma_primes_below_gap((last + 1) as nat, x as nat);
                    }
                    self.primes.push(x);
                    found = true;
                }
            }
        }
        self.index += 1;
        let p = self.primes[self.index - 1];
        proof {
            lemma_primes_below_counts_prime(p as nat, u64_limit());
        }
        Some(p)
    }
}

impl Clone for PrimeSeq {
    fn clone(&self) -> (s: Self)
        ensures
            s.position() == self.position(),
            self.inv() ==> s.inv(),
    {
        PrimeSeq { primes: self.primes.clone(), index: self.index }
    }
}

/// A fresh prime source, standing before the first prime.
pub fn primes() -> (s: PrimeSeq)
    ensures
        s.inv(),
        s.position() == 0,
{
    PrimeSeq::new()
}

} // verus!
