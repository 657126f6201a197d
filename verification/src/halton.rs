//! The Halton sequence: along axis `i`, the radical inverses of `1, 2, 3, ...`
//! in the base of the prime with index `i`.
//!
//! Each axis keeps the digits of the running index and advances them by one
//! with carry, so that a step costs constant time on average.

use crate::fraction::Fraction;
use crate::primality::{is_nth_prime, primes_below, u64_limit};
use crate::radical_inverse::{
    digit, digit_count, drop_digits, lemma_carry_runs, lemma_carry_stops, lemma_den_bounds,
    lemma_drop_digits_le, lemma_drop_digits_zero, lemma_radical_inverse_below_one,
    lemma_successor_digits, radical_inverse_den, radical_inverse_num,
};
use crate::traits::{QRng, MAX_N};
use crate::utils::primes;
use vstd::arithmetic::div_mod::*;
use vstd::arithmetic::mul::*;
use vstd::prelude::*;

verus! {

/// `f` is the radical inverse of `n` in base `b`, in its exact form.
pub open spec fn is_radical_inverse(f: Fraction, b: nat, n: nat) -> bool {
    &&& f.num == radical_inverse_num(b, n)
    &&& f.den == radical_inverse_den(b, n)
}

/// `(d + r) / base`: the fraction `r` moved one place behind the radix point,
/// with the digit `d` put in front of it.
fn shift_in(d: u64, r: Fraction, base: u64) -> (f: Fraction)
    requires
        d < base,
        r.num < r.den,
        base * r.den <= u128::MAX,
    ensures
        f.num == d * r.den + r.num,
        f.den == base * r.den,
        f.num < f.den,
{
    proof {
        lemma_mul_is_commutative(base as int, r.den as int);
        lemma_mul_strict_inequality(r.num as int, r.den as int, 1);
        assert(d * r.den + r.num < base * r.den) by (nonlinear_arith)
            requires
                d < base,
                r.num < r.den,
        ;
    }
    Fraction { num: (d as u128) * r.den + r.num, den: r.den * (base as u128) }
}

/// One axis of a Halton sequence: the running index in base `base`.
struct HaltonSeq1D {
    base: u64,
    digits: Vec<u64>,
    remainders: Vec<Fraction>,
    next_power: u128,
}

impl HaltonSeq1D {
    /// The digit and remainder vectors describe `n`: entry `k` of the one is
    /// the digit of `n` at position `k`, entry `k` of the other the radical
    /// inverse of the digits above position `k`.
    spec fn holds(&self, n: nat) -> bool {
        &&& self.base >= 2
        &&& self.digits.len() == self.remainders.len()
        &&& forall|k: int|
            0 <= k < self.digits.len() ==> #[trigger] self.digits[k] == digit(
                self.base as nat,
                n,
                k as nat,
            )
        &&& forall|k: int|
            0 <= k < self.remainders.len() ==> is_radical_inverse(
                #[trigger] self.remainders[k],
                self.base as nat,
                drop_digits(self.base as nat, n, (k + 1) as nat),
            )
    }

    /// The axis stands at index `n`: it holds the digits of `n` and one
    /// spare position above them, and knows the power of the base at which
    /// the next position is due.
    spec fn represents(&self, n: nat) -> bool {
        &&& self.holds(n)
        &&& n <= MAX_N
        &&& self.digits.len() == digit_count(self.base as nat, n) + 1
        &&& self.next_power == radical_inverse_den(self.base as nat, n)
    }

    /// An axis in base `base`, standing at index zero.
    fn new(base: u64) -> (s: Self)
        requires
            base >= 2,
        ensures
            s.represents(0),
            s.base == base,
    {
        let mut digits: Vec<u64> = Vec::new();
        digits.push(0);
        let mut remainders: Vec<Fraction> = Vec::new();
        remainders.push(Fraction::zero());
        let s = HaltonSeq1D { base, digits, remainders, next_power: 1 };
        proof {
            lemma_zero_has_no_digits(base as nat, 0);
            lemma_zero_has_no_digits(base as nat, 1);
        }
        s
    }

    /// Puts the axis back to index zero.
    fn reset(&mut self)
        requires
            old(self).base >= 2,
        ensures
            final(self).represents(0),
            final(self).base == old(self).base,
    {
        self.digits.clear();
        self.digits.push(0);
        self.remainders.clear();
        self.remainders.push(Fraction::zero());
        self.next_power = 1;
        proof {
            lemma_zero_has_no_digits(self.base as nat, 0);
            lemma_zero_has_no_digits(self.base as nat, 1);
        }
    }

    /// Advances the axis from index `index - 1` to `index` and returns the
    /// radical inverse of `index`.
    fn next(&mut self, index: u64) -> (r: Fraction)
        requires
            1 <= index <= MAX_N,
            old(self).represents((index - 1) as nat),
        ensures
            final(self).represents(index as nat),
            final(self).base == old(self).base,
            is_radical_inverse(r, old(self).base as nat, index as nat),
    {
        let base = self.base;
        let ghost b = base as nat;
        let ghost n = (index - 1) as nat;
        let ghost m = index as nat;
        proof {
            lemma_successor_digits(b, n);
            lemma_den_bounds(b, m);
            lemma_index_times_base_fits(b, m);
            lemma_mul_is_commutative(b as int, radical_inverse_den(b, n) as int);
        }
        // A new position is due when the index reaches the next power of
        // the base.
        if index as u128 == self.next_power {
            proof {
                lemma_zero_has_no_digits_above(b, n, self.digits.len() as nat);
                lemma_zero_has_no_digits_above(b, n, (self.digits.len() + 1) as nat);
            }
            self.digits.push(0);
            self.remainders.push(Fraction::zero());
            self.next_power = self.next_power * (base as u128);
        }
        let len = self.digits.len();
        proof {
            // the spare position is empty
            lemma_zero_has_no_digits_above(b, n, (len - 1) as nat);
        }
        // Add one to the lowest digit and carry as far as it goes.
        let mut k: usize = 0;
        self.digits[0] = self.digits[0] + 1;
        while self.digits[k] == base
            invariant
                b == base,
                base >= 2,
                self.base == base,
                len == self.digits.len(),
                len == self.remainders.len(),
                k < len,
                digit(b, n, (len - 1) as nat) == 0,
                self.next_power == radical_inverse_den(b, m),
                forall|j: int| 0 <= j < k ==> #[trigger] self.digits[j] == 0,
                forall|j: nat| j < k ==> #[trigger] digit(b, n, j) == b - 1,
                self.digits[k as int] == digit(b, n, k as nat) + 1,
                forall|j: int| k < j < len ==> #[trigger] self.digits[j] == digit(b, n, j as nat),
                forall|j: int|
                    0 <= j < len ==> is_radical_inverse(
                        #[trigger] self.remainders[j],
                        b,
                        drop_digits(b, n, (j + 1) as nat),
                    ),
            decreases len - k,
        {
            self.digits[k] = 0;
            k += 1;
            proof {
                lemma_mod_bound(drop_digits(b, n, k as nat) as int, b as int);
            }
            self.digits[k] = self.digits[k] + 1;
        }
        proof {
            lemma_mod_bound(drop_digits(b, n, k as nat) as int, b as int);
            lemma_carry_runs(b, n, m, k as nat);
            assert forall|j: int| 0 <= j < len implies #[trigger] self.digits[j] == digit(
                b,
                m,
                j as nat,
            ) by {
                if j > k {
                    lemma_carry_stops(b, n, m, k as nat, j as nat);
                } else if j == k {
                    lemma_carry_stops(b, n, m, k as nat, (k + 1) as nat);
                }
            }
            assert forall|j: int| k <= j < len implies is_radical_inverse(
                #[trigger] self.remainders[j],
                b,
                drop_digits(b, m, (j + 1) as nat),
            ) by {
                lemma_carry_stops(b, n, m, k as nat, (j + 1) as nat);
            }
        }
        // Rebuild the remainders below the position where the carry stopped,
        // from the top down.
        let mut i: usize = k;
        while i > 0
            invariant
                b == base,
                base >= 2,
                self.base == base,
                m == index,
                1 <= m <= MAX_N,
                len == self.digits.len(),
                len == self.remainders.len(),
                i <= k < len,
                drop_digits(b, m, k as nat) > 0,
                self.next_power == radical_inverse_den(b, m),
                forall|j: int| 0 <= j < len ==> #[trigger] self.digits[j] == digit(b, m, j as nat),
                forall|j: int|
                    i <= j < len ==> is_radical_inverse(
                        #[trigger] self.remainders[j],
                        b,
                        drop_digits(b, m, (j + 1) as nat),
                    ),
                drop_digits(b, m, i as nat) > 0,
            decreases i,
        {
            proof {
                lemma_shift_in_fits(b, m, i as nat);
            }
            let f = shift_in(self.digits[i], self.remainders[i], base);
            self.remainders[i - 1] = f;
            i -= 1;
            proof {
                lemma_div_nonincreasing(drop_digits(b, m, i as nat) as int, b as int);
                if drop_digits(b, m, i as nat) == 0 {
                    lemma_div_basics_1(b as int);
                }
            }
        }
        proof {
            lemma_shift_in_fits(b, m, 0);
        }
        shift_in(self.digits[0], self.remainders[0], base)
    }

    /// An independent copy of the axis.
    fn duplicate(&self) -> (s: Self)
        ensures
            s.base == self.base,
            s.digits@ == self.digits@,
            s.remainders@ == self.remainders@,
            s.next_power == self.next_power,
    {
        HaltonSeq1D {
            base: self.base,
            digits: self.digits.clone(),
            remainders: self.remainders.clone(),
            next_power: self.next_power,
        }
    }
}

/// Halton low-discrepancy sequence generator.
///
/// The generator follows Kolar and Shea, "Fast, Portable and Reliable
/// Algorithm for the Calculation of Halton Numbers" (1993): each point is
/// computed from the one before it. The bases are the first `ndim` primes.
pub struct HaltonSeq {
    index: u64,
    seqs: Vec<HaltonSeq1D>,
}

impl HaltonSeq {
    /// The bases of the axes, in order.
    pub closed spec fn bases(&self) -> Seq<nat> {
        Seq::new(self.seqs.len() as nat, |i: int| self.seqs[i].base as nat)
    }

    /// The step counter: the index whose radical inverses the last draw
    /// yielded, zero before the first draw.
    pub closed spec fn index(&self) -> nat {
        self.index as nat
    }

    /// The axes `from .. to` stand at index `n`.
    spec fn axes_stand_at(&self, from: int, to: int, n: nat) -> bool {
        forall|i: int| from <= i < to ==> (#[trigger] self.seqs[i]).represents(n)
    }

    /// Returns a new Halton sequence generator with dimensionality `ndim`,
    /// or `None` where fewer than `ndim` primes fit in a `u64`.
    pub fn new(ndim: usize) -> (r: Option<Self>)
        ensures
            r is Some <==> ndim <= primes_below(u64_limit()),
            r matches Some(h) ==> {
                &&& h.inv()
                &&& h.dim() == ndim
                &&& h.index() == 0
                &&& h.position() == 0
                &&& forall|i: int| 0 <= i < ndim ==> is_nth_prime(i as nat, #[trigger] h.bases()[i])
            },
    {
        let mut source = primes();
        let mut seqs: Vec<HaltonSeq1D> = Vec::new();
        while seqs.len() < ndim
            invariant
                source.inv(),
                source.position() == seqs.len(),
                seqs.len() <= ndim,
                seqs.len() <= primes_below(u64_limit()),
                forall|i: int|
                    0 <= i < seqs.len() ==> (#[trigger] seqs[i]).represents(0) && is_nth_prime(
                        i as nat,
                        seqs[i].base as nat,
                    ),
            decreases ndim - seqs.len(),
        {
            match source.next() {
                Some(p) => {
                    seqs.push(HaltonSeq1D::new(p));
                },
                None => {
                    return None;
                },
            }
        }
        let h = HaltonSeq { index: 0, seqs };
        Some(h)
    }

    /// The base of axis `i` is the prime with index `i`.
    pub proof fn lemma_bases_are_primes(&self, i: int)
        requires
            self.inv(),
            0 <= i < self.dim(),
        ensures
            is_nth_prime(i as nat, self.bases()[i]),
            2 <= self.bases()[i] <= u64::MAX,
    {
    }
}

impl Clone for HaltonSeq {
    fn clone(&self) -> (h: Self)
        ensures
            h.bases() == self.bases(),
            h.index() == self.index(),
            self.inv() ==> h.inv(),
    {
        let ndim = self.seqs.len();
        let mut seqs: Vec<HaltonSeq1D> = Vec::with_capacity(ndim);
        while seqs.len() < ndim
            invariant
                ndim == self.seqs.len(),
                seqs.len() <= ndim,
                forall|i: int|
                    0 <= i < seqs.len() ==> {
                        &&& (#[trigger] seqs[i]).base == self.seqs[i].base
                        &&& seqs[i].digits@ == self.seqs[i].digits@
                        &&& seqs[i].remainders@ == self.seqs[i].remainders@
                        &&& seqs[i].next_power == self.seqs[i].next_power
                    },
            decreases ndim - seqs.len(),
        {
            let axis = self.seqs[seqs.len()].duplicate();
            seqs.push(axis);
        }
        let h = HaltonSeq { index: self.index, seqs };
        h
    }
}

impl QRng for HaltonSeq {
    closed spec fn inv(&self) -> bool {
        &&& self.index <= MAX_N
        &&& self.axes_stand_at(0, self.seqs.len() as int, self.index as nat)
        &&& forall|i: int|
            0 <= i < self.seqs.len() ==> is_nth_prime(i as nat, (#[trigger] self.seqs[i]).base as nat)
    }

    open spec fn dim(&self) -> nat {
        self.bases().len()
    }

    open spec fn position(&self) -> nat {
        self.index() % (MAX_N as nat)
    }

    /// The draw from position `k` yields, along each axis, the radical
    /// inverse of `k + 1` in the base of the axis.
    open spec fn point(&self, k: nat) -> Seq<Fraction> {
        Seq::new(
            self.bases().len(),
            |i: int|
                Fraction {
                    num: radical_inverse_num(self.bases()[i], k + 1) as u128,
                    den: radical_inverse_den(self.bases()[i], k + 1) as u128,
                },
        )
    }

    proof fn lemma_clone_stands_alike(&self, other: &Self) {
    }

    fn ndim(&self) -> (n: usize) {
        self.seqs.len()
    }

    fn gen_fill_unchecked(&mut self, out: &mut [Fraction])
        ensures
            final(self).bases() == old(self).bases(),
            final(self).index() == old(self).position() + 1,
            forall|i: int|
                0 <= i < old(self).dim() ==> is_radical_inverse(
                    #[trigger] final(out)@[i],
                    old(self).bases()[i],
                    old(self).position() + 1,
                ),
    {
        let ndim = self.seqs.len();
        if self.index >= MAX_N {
            // The counter starts over, and every axis with it.
            self.index = 0;
            let mut i: usize = 0;
            while i < ndim
                invariant
                    i <= ndim,
                    ndim == self.seqs.len(),
                    self.index == 0,
                    self.bases() == old(self).bases(),
                    self.axes_stand_at(0, i as int, 0),
                    forall|j: int| 0 <= j < ndim ==> (#[trigger] self.seqs[j]).base >= 2,
                decreases ndim - i,
            {
                self.seqs[i].reset();
                i += 1;
            }
        }
        let ghost before = self.index as nat;
        self.index += 1;
        let index = self.index;
        let mut i: usize = 0;
        while i < ndim
            invariant
                i <= ndim,
                ndim == self.seqs.len(),
                ndim <= out@.len(),
                out@.len() == old(out)@.len(),
                self.index == index,
                index == before + 1,
                1 <= index <= MAX_N,
                self.bases() == old(self).bases(),
                self.axes_stand_at(0, i as int, index as nat),
                self.axes_stand_at(i as int, ndim as int, before),
                forall|j: int|
                    0 <= j < i ==> is_radical_inverse(
                        #[trigger] out@[j],
                        old(self).bases()[j],
                        index as nat,
                    ),
                forall|j: int| i <= j < out@.len() ==> out@[j] == old(out)@[j],
            decreases ndim - i,
        {
            let x = self.seqs[i].next(index);
            out[i] = x;
            i += 1;
        }
        proof {
            assert forall|j: int| 0 <= j < ndim implies is_nth_prime(
                j as nat,
                (#[trigger] self.seqs[j]).base as nat,
            ) by {
                assert(self.bases()[j] == old(self).bases()[j]);
            }
            assert forall|j: int| 0 <= j < ndim implies (#[trigger] out@[j]).below_one() by {
                lemma_radical_inverse_below_one(old(self).bases()[j], index as nat);
            }
        }
    }
}

/// Zero has no digits: dropping any number of them leaves zero.
proof fn lemma_zero_has_no_digits(b: nat, k: nat)
    requires
        b >= 2,
    ensures
        drop_digits(b, 0, k) == 0,
        digit(b, 0, k) == 0,
{
    lemma_drop_digits_zero(b, 0, k);
    lemma_small_mod(0, b);
}

/// At and above its number of digits, `n` has only zero digits and nothing
/// is left of it.
proof fn lemma_zero_has_no_digits_above(b: nat, n: nat, k: nat)
    requires
        b >= 2,
        k >= digit_count(b, n),
    ensures
        drop_digits(b, n, k) == 0,
        drop_digits(b, n, k + 1) == 0,
        digit(b, n, k) == 0,
{
    lemma_drop_digits_zero(b, n, k);
    lemma_drop_digits_zero(b, n, k + 1);
    lemma_small_mod(0, b);
}

/// Up to the period, an index times a base fits in 128 bits.
proof fn lemma_index_times_base_fits(b: nat, m: nat)
    requires
        b <= u64::MAX,
        m <= MAX_N,
    ensures
        b * m <= u128::MAX,
{
    assert(b * m <= 0xffff_ffff_ffff_ffff * 0x1_0000_0000_0000) by (nonlinear_arith)
        requires
            b <= 0xffff_ffff_ffff_ffff,
            m <= 0x1_0000_0000_0000,
    ;
}

/// What is left of `m` above position `i`, when it is not zero, has a
/// radical inverse that unfolds by one digit, within 128 bits.
proof fn lemma_shift_in_fits(b: nat, m: nat, i: nat)
    requires
        2 <= b <= u64::MAX,
        m <= MAX_N,
        drop_digits(b, m, i) > 0,
    ensures
        digit(b, m, i) < b,
        radical_inverse_num(b, drop_digits(b, m, i + 1)) < radical_inverse_den(
            b,
            drop_digits(b, m, i + 1),
        ),
        b * radical_inverse_den(b, drop_digits(b, m, i + 1)) <= u128::MAX,
        radical_inverse_den(b, drop_digits(b, m, i)) == b * radical_inverse_den(
            b,
            drop_digits(b, m, i + 1),
        ),
        radical_inverse_num(b, drop_digits(b, m, i)) == digit(b, m, i) * radical_inverse_den(
            b,
            drop_digits(b, m, i + 1),
        ) + radical_inverse_num(b, drop_digits(b, m, i + 1)),
{
    let q = drop_digits(b, m, i);
    lemma_mod_bound(q as int, b as int);
    lemma_div_pos_is_pos(q as int, b as int);
    lemma_radical_inverse_below_one(b, q / b);
    lemma_den_bounds(b, q);
    lemma_drop_digits_le(b, m, i);
    lemma_index_times_base_fits(b, m);
    lemma_mul_inequality(q as int, m as int, b as int);
    lemma_mul_is_commutative(q as int, b as int);
    lemma_mul_is_commutative(m as int, b as int);
}

} // verus!
