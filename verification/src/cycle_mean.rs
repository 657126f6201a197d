//! Halton points average to one half: over each complete cycle of indices,
//! those that have the same number of digits in the base of an axis, the
//! mean of the axis's coordinates is exactly one half.

use crate::radical_inverse::{
    digit_count, lemma_den_is_power, power, radical_inverse_den, radical_inverse_num,
};
use vstd::arithmetic::div_mod::*;
use vstd::arithmetic::mul::*;
use vstd::prelude::*;

verus! {

/// The sum of the numerators of the radical inverses in base `b` of the
/// indices from `lo` up to `hi`, `hi` left out.
pub open spec fn sum_of_numerators(b: nat, lo: nat, hi: nat) -> nat
    decreases hi,
{
    if hi <= lo {
        0
    } else {
        sum_of_numerators(b, lo, (hi - 1) as nat) + radical_inverse_num(b, (hi - 1) as nat)
    }
}

/// The lowest `m` digits of `n` in base `b`, mirrored: the number that has
/// them as its digits in the opposite order.
spec fn mirrored(b: nat, n: nat, m: nat) -> nat
    decreases m,
{
    if m == 0 {
        0
    } else {
        (n % b) * power(b, (m - 1) as nat) + mirrored(b, n / b, (m - 1) as nat)
    }
}

/// The sum of the mirrored numbers of `count` indices from `lo` on.
spec fn sum_mirrored(b: nat, m: nat, lo: nat, count: nat) -> nat
    decreases count,
{
    if count == 0 {
        0
    } else {
        sum_mirrored(b, m, lo, (count - 1) as nat) + mirrored(b, lo + (count - 1) as nat, m)
    }
}

/// A power of a base of at least two is positive.
proof fn lemma_power_positive(b: nat, e: nat)
    requires
        b >= 2,
    ensures
        power(b, e) >= 1,
    decreases e,
{
    if e > 0 {
        lemma_power_positive(b, (e - 1) as nat);
        lemma_mul_strictly_positive(b as int, power(b, (e - 1) as nat) as int);
    }
}

/// An index has `m` digits exactly when it lies from `b` to the `m - 1` up
/// to `b` to the `m`, and then its radical inverse has the denominator `b`
/// to the `m`.
proof fn lemma_digit_count_by_power(b: nat, n: nat, m: nat)
    requires
        b >= 2,
        m >= 1,
        power(b, (m - 1) as nat) <= n < power(b, m),
    ensures
        digit_count(b, n) == m,
        radical_inverse_den(b, n) == power(b, m),
    decreases m,
{
    lemma_power_positive(b, (m - 1) as nat);
    let p = power(b, (m - 1) as nat);
    lemma_fundamental_div_mod(n as int, b as int);
    lemma_mod_bound(n as int, b as int);
    let q = n / b;
    // n = b * q + r < b * p gives q < p
    assert(q < p) by (nonlinear_arith)
        requires
            n == b * q + n % b,
            0 <= n % b,
            n < b * p,
            b >= 2,
    ;
    if m == 1 {
        assert(digit_count(b, 0) == 0);
        assert(radical_inverse_den(b, 0) == 1);
    } else {
        let smaller = power(b, (m - 2) as nat);
        assert(smaller <= q) by (nonlinear_arith)
            requires
                n == b * q + n % b,
                n % b < b,
                b * smaller <= n,
                b >= 2,
        ;
        lemma_digit_count_by_power(b, q, (m - 1) as nat);
    }
}

/// The mirrored number of an index with `m` digits is the numerator of its
/// radical inverse.
proof fn lemma_mirrored_is_numerator(b: nat, n: nat, m: nat)
    requires
        b >= 2,
        digit_count(b, n) == m,
    ensures
        mirrored(b, n, m) == radical_inverse_num(b, n),
    decreases m,
{
    if m > 0 {
        lemma_div_decreases(n as int, b as int);
        lemma_mirrored_is_numerator(b, n / b, (m - 1) as nat);
        lemma_den_is_power(b, n / b);
    }
}

/// Putting the digit `t` on top of an index `i` of at most `m - 1` digits
/// puts it at the bottom of the mirrored number.
proof fn lemma_mirrored_top_digit(b: nat, t: nat, i: nat, m: nat)
    requires
        b >= 2,
        m >= 1,
        t < b,
        i < power(b, (m - 1) as nat),
    ensures
        mirrored(b, t * power(b, (m - 1) as nat) + i, m) == b * mirrored(b, i, (m - 1) as nat) + t,
    decreases m,
{
    let p = power(b, (m - 1) as nat);
    let n = t * p + i;
    if m == 1 {
        assert(n == t) by (nonlinear_arith)
            requires
                n == t * p + i,
                p == 1,
                i == 0,
        ;
        lemma_small_mod(t, b);
        lemma_basic_div(t as int, b as int);
        assert(b * 0 == 0) by (nonlinear_arith);
        assert(t * 1 == t) by (nonlinear_arith);
    } else {
        let smaller = power(b, (m - 2) as nat);
        let q = i / b;
        let r = i % b;
        lemma_fundamental_div_mod(i as int, b as int);
        lemma_mod_bound(i as int, b as int);
        assert(q < smaller) by (nonlinear_arith)
            requires
                i == b * q + r,
                0 <= r,
                i < b * smaller,
                b >= 2,
        ;
        // n = (t * smaller + q) * b + r
        assert(n == (t * smaller + q) * b + r) by (nonlinear_arith)
            requires
                n == t * p + i,
                p == b * smaller,
                i == b * q + r,
        ;
        lemma_fundamental_div_mod_converse(n as int, b as int, (t * smaller + q) as int, r as int);
        lemma_mirrored_top_digit(b, t, q, (m - 1) as nat);
        let inner = mirrored(b, q, (m - 2) as nat);
        assert(r * p + (b * inner + t) == b * (r * smaller + inner) + t) by (nonlinear_arith)
            requires
                p == b * smaller,
        ;
    }
}

/// Over the indices that have the digit `t` on top of `m - 1` digits, the
/// mirrored numbers add up to `b` times what they add up to without that
/// digit, and `t` more for each index.
proof fn lemma_sum_mirrored_block(b: nat, t: nat, m: nat, count: nat)
    requires
        b >= 2,
        m >= 1,
        t < b,
        count <= power(b, (m - 1) as nat),
    ensures
        sum_mirrored(b, m, t * power(b, (m - 1) as nat), count) == b * sum_mirrored(
            b,
            (m - 1) as nat,
            0,
            count,
        ) + t * count,
    decreases count,
{
    let p = power(b, (m - 1) as nat);
    if count == 0 {
        assert(b * 0 + t * 0 == 0) by (nonlinear_arith);
    } else {
        let c = (count - 1) as nat;
        lemma_sum_mirrored_block(b, t, m, c);
        lemma_mirrored_top_digit(b, t, c, m);
        let below = sum_mirrored(b, (m - 1) as nat, 0, c);
        let last = mirrored(b, c, (m - 1) as nat);
        assert((b * below + t * c) + (b * last + t) == b * (below + last) + t * count)
            by (nonlinear_arith)
            requires
                count == c + 1,
        ;
    }
}

/// A sum over a run of indices is the sum over its front part and the sum
/// over the rest.
proof fn lemma_sum_mirrored_split(b: nat, m: nat, lo: nat, front: nat, rest: nat)
    ensures
        sum_mirrored(b, m, lo, front + rest) == sum_mirrored(b, m, lo, front) + sum_mirrored(
            b,
            m,
            lo + front,
            rest,
        ),
    decreases rest,
{
    if rest > 0 {
        lemma_sum_mirrored_split(b, m, lo, front, (rest - 1) as nat);
        assert(sum_mirrored(b, m, lo, front + rest) == sum_mirrored(
            b,
            m,
            lo,
            (front + rest - 1) as nat,
        ) + mirrored(b, lo + (front + rest - 1) as nat, m));
    }
}

/// Twice the sum of the mirrored numbers of all indices of at most `m`
/// digits: they are the numbers below `b` to the `m`, each once.
proof fn lemma_sum_mirrored_all(b: nat, m: nat)
    requires
        b >= 2,
    ensures
        2 * sum_mirrored(b, m, 0, power(b, m)) == power(b, m) * (power(b, m) - 1),
    decreases m,
{
    if m == 0 {
        assert(sum_mirrored(b, 0, 0, 1) == sum_mirrored(b, 0, 0, 0) + mirrored(b, 0, 0));
        assert(1 * (1 - 1) == 0) by (nonlinear_arith);
    } else {
        lemma_sum_mirrored_all(b, (m - 1) as nat);
        lemma_sum_mirrored_blocks(b, m, b);
        let p = power(b, (m - 1) as nat);
        let below = sum_mirrored(b, (m - 1) as nat, 0, p);
        lemma_mul_is_commutative(b as int, p as int);
        assert(2 * (b * b * below) + p * b * (b - 1) == (b * p) * (b * p - 1)) by (nonlinear_arith)
            requires
                2 * below == p * (p - 1),
        ;
    }
}

/// Twice the sum of the mirrored numbers of the indices whose top digit,
/// of `m`, is below `t`.
proof fn lemma_sum_mirrored_blocks(b: nat, m: nat, t: nat)
    requires
        b >= 2,
        m >= 1,
        t <= b,
    ensures
        2 * sum_mirrored(b, m, 0, t * power(b, (m - 1) as nat)) == 2 * (t * b * sum_mirrored(
            b,
            (m - 1) as nat,
            0,
            power(b, (m - 1) as nat),
        )) + power(b, (m - 1) as nat) * t * (t - 1),
    decreases t,
{
    let p = power(b, (m - 1) as nat);
    let below = sum_mirrored(b, (m - 1) as nat, 0, p);
    if t == 0 {
        assert(0 * p == 0) by (nonlinear_arith);
        assert(2 * (0 * b * below) + p * 0 * (0 - 1) == 0) by (nonlinear_arith);
    } else {
        let t1 = (t - 1) as nat;
        lemma_sum_mirrored_blocks(b, m, t1);
        lemma_sum_mirrored_block(b, t1, m, p);
        lemma_sum_mirrored_split(b, m, 0, t1 * p, p);
        assert(t1 * p + p == t * p) by (nonlinear_arith)
            requires
                t == t1 + 1,
        ;
        let front = sum_mirrored(b, m, 0, t1 * p);
        assert(2 * (t1 * b * below) + p * t1 * (t1 - 1) + 2 * (b * below + t1 * p) == 2 * (t * b
            * below) + p * t * (t - 1)) by (nonlinear_arith)
            requires
                t == t1 + 1,
        ;
    }
}

/// The sum of the numerators over a run of indices that all have `m`
/// digits is the sum of their mirrored numbers.
proof fn lemma_sum_of_numerators_is_mirrored(b: nat, m: nat, lo: nat, count: nat)
    requires
        b >= 2,
        m >= 1,
        power(b, (m - 1) as nat) <= lo,
        lo + count <= power(b, m),
    ensures
        sum_of_numerators(b, lo, lo + count) == sum_mirrored(b, m, lo, count),
    decreases count,
{
    if count > 0 {
        let c = (count - 1) as nat;
        lemma_sum_of_numerators_is_mirrored(b, m, lo, c);
        lemma_digit_count_by_power(b, lo + c, m);
        lemma_mirrored_is_numerator(b, lo + c, m);
        assert(sum_of_numerators(b, lo, lo + count) == sum_of_numerators(b, lo, lo + c)
            + radical_inverse_num(b, lo + c));
    }
}

/// Over a complete cycle, the indices with `n + 1` digits in base `b`, the
/// radical inverses have the mean one half.
///
/// The cycle runs from `b` to the `n` up to `b` to the `n + 1`. All its
/// radical inverses have the denominator `b` to the `n + 1`, and twice the
/// sum of their numerators is the length of the cycle times that
/// denominator.
pub proof fn lemma_cycle_mean_is_one_half(b: nat, n: nat)
    requires
        b >= 2,
    ensures
        power(b, n) <= power(b, n + 1),
        forall|i: nat|
            power(b, n) <= i < power(b, n + 1) ==> #[trigger] radical_inverse_den(b, i) == power(
                b,
                n + 1,
            ),
        2 * sum_of_numerators(b, power(b, n), power(b, n + 1)) == (power(b, n + 1) - power(b, n))
            * power(b, n + 1),
{
    let m = n + 1;
    let p = power(b, n);
    let bp = power(b, m);
    lemma_power_positive(b, n);
    assert(p <= b * p) by (nonlinear_arith)
        requires
            b >= 2,
            p >= 1,
    ;
    assert forall|i: nat| p <= i < bp implies #[trigger] radical_inverse_den(b, i) == bp by {
        lemma_digit_count_by_power(b, i, m);
    }
    // the cycle is what is left of all indices below `b * p` without those
    // below `p`, whose top digit is zero
    lemma_sum_of_numerators_is_mirrored(b, m, p, (bp - p) as nat);
    lemma_sum_mirrored_split(b, m, 0, p, (bp - p) as nat);
    lemma_sum_mirrored_all(b, m);
    lemma_sum_mirrored_all(b, n);
    lemma_sum_mirrored_block(b, 0, m, p);
    assert(0 * p == 0) by (nonlinear_arith);
    let below = sum_mirrored(b, n, 0, p);
    let all = sum_mirrored(b, m, 0, bp);
    let cycle = sum_mirrored(b, m, p, (bp - p) as nat);
    assert(2 * cycle == (b * p - p) * (b * p)) by (nonlinear_arith)
        requires
            2 * below == p * (p - 1),
            2 * all == (b * p) * (b * p - 1),
            all == b * below + cycle,
    ;
}

} // verus!
