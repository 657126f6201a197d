//! The radical inverse: an integer's digits in some base, mirrored about the
//! radix point. The Halton sequence is made of radical inverses, one base
//! per axis.
//!
//! The radical inverse of `n` in base `b` is kept as an exact fraction whose
//! denominator is the smallest power of `b` above `n`:
//! `radical_inverse_num(b, n) / radical_inverse_den(b, n)`.

use vstd::arithmetic::div_mod::*;
use vstd::arithmetic::mul::*;
use vstd::prelude::*;

verus! {

/// `b` to the `e`.
pub open spec fn power(b: nat, e: nat) -> nat
    decreases e,
{
    if e == 0 {
        1
    } else {
        b * power(b, (e - 1) as nat)
    }
}

/// How many digits `n` has in base `b`; zero has none.
pub open spec fn digit_count(b: nat, n: nat) -> nat
    decreases n,
{
    if n == 0 || b < 2 {
        0
    } else {
        proof {
            lemma_div_decreases(n as int, b as int);
        }
        1 + digit_count(b, n / b)
    }
}

/// Denominator of the radical inverse of `n` in base `b`: `b` to the number
/// of digits of `n`.
pub open spec fn radical_inverse_den(b: nat, n: nat) -> nat
    decreases n,
{
    if n == 0 || b < 2 {
        1
    } else {
        proof {
            lemma_div_decreases(n as int, b as int);
        }
        b * radical_inverse_den(b, n / b)
    }
}

/// Numerator of the radical inverse of `n` in base `b`, over
/// `radical_inverse_den(b, n)`. With `d` the lowest digit of `n` and `r` the
/// radical inverse of the remaining digits, it is that of `(d + r) / b`.
pub open spec fn radical_inverse_num(b: nat, n: nat) -> nat
    decreases n,
{
    if n == 0 || b < 2 {
        0
    } else {
        proof {
            lemma_div_decreases(n as int, b as int);
        }
        (n % b) * radical_inverse_den(b, n / b) + radical_inverse_num(b, n / b)
    }
}

/// `n` with its `k` lowest digits in base `b` dropped.
pub open spec fn drop_digits(b: nat, n: nat, k: nat) -> nat
    decreases k,
{
    if k == 0 {
        n
    } else {
        drop_digits(b, n, (k - 1) as nat) / b
    }
}

/// The digit of `n` at position `k` in base `b`, position zero being the
/// lowest.
pub open spec fn digit(b: nat, n: nat, k: nat) -> nat {
    drop_digits(b, n, k) % b
}

/// `b * q + r` with `r < b` and `q < d` stays below `b * d`.
proof fn lemma_mixed_radix_bound(b: int, q: int, r: int, d: int)
    by (nonlinear_arith)
    requires
        0 <= r < b,
        0 <= q < d,
    ensures
        b * q + r < b * d,
        r * d + q < b * d,
{
}

/// Multiplying both sides by the same non-negative factor keeps an order.
proof fn lemma_scale_le(b: int, x: int, y: int)
    by (nonlinear_arith)
    requires
        0 <= b,
        x <= y,
    ensures
        b * x <= b * y,
{
}

/// A product of a factor of at least two is the other factor's successor
/// times it, less what is missing.
proof fn lemma_next_multiple(b: int, q: int)
    by (nonlinear_arith)
    ensures
        b * q + b == b * (q + 1),
        b * q + b == (q + 1) * b,
{
}

/// The denominator is `b` to the number of digits.
pub proof fn lemma_den_is_power(b: nat, n: nat)
    requires
        b >= 2,
    ensures
        radical_inverse_den(b, n) == power(b, digit_count(b, n)),
    decreases n,
{
    if n != 0 {
        lemma_div_decreases(n as int, b as int);
        lemma_den_is_power(b, n / b);
    }
}

/// A radical inverse lies in `[0, 1)`: its numerator is below its
/// denominator.
pub proof fn lemma_radical_inverse_below_one(b: nat, n: nat)
    requires
        b >= 2,
    ensures
        radical_inverse_den(b, n) >= 1,
        radical_inverse_num(b, n) < radical_inverse_den(b, n),
    decreases n,
{
    if n != 0 {
        lemma_div_decreases(n as int, b as int);
        lemma_radical_inverse_below_one(b, n / b);
        let d = radical_inverse_den(b, n / b);
        let m = radical_inverse_num(b, n / b);
        let r = n % b;
        lemma_mod_bound(n as int, b as int);
        lemma_mixed_radix_bound(b as int, m as int, r as int, d as int);
    }
}

/// The denominator is above `n`, and for positive `n` at most `b * n`.
pub proof fn lemma_den_bounds(b: nat, n: nat)
    requires
        b >= 2,
    ensures
        n < radical_inverse_den(b, n),
        n >= 1 ==> radical_inverse_den(b, n) <= b * n,
    decreases n,
{
    if n != 0 {
        let q = n / b;
        lemma_div_decreases(n as int, b as int);
        lemma_den_bounds(b, q);
        lemma_fundamental_div_mod(n as int, b as int);
        lemma_mod_bound(n as int, b as int);
        let d = radical_inverse_den(b, q);
        lemma_mixed_radix_bound(b as int, q as int, (n % b) as int, d as int);
        if q == 0 {
            lemma_scale_le(b as int, 1, n as int);
        } else {
            lemma_scale_le(b as int, q as int, (n / b) as int);
            lemma_scale_le(b as int, d as int, n as int);
        }
    }
}

/// Division of a successor: either the quotient stays and the remainder
/// grows by one, or the remainder wraps to zero and the quotient grows.
pub proof fn lemma_successor_div_mod(b: nat, q: nat)
    requires
        b >= 2,
    ensures
        q % b < b - 1 ==> (q + 1) / b == q / b && (q + 1) % b == q % b + 1,
        q % b == b - 1 ==> (q + 1) / b == q / b + 1 && (q + 1) % b == 0,
{
    lemma_fundamental_div_mod(q as int, b as int);
    lemma_mod_bound(q as int, b as int);
    lemma_mul_is_commutative(b as int, (q / b) as int);
    if q % b < b - 1 {
        lemma_fundamental_div_mod_converse(
            (q + 1) as int,
            b as int,
            (q / b) as int,
            (q % b + 1) as int,
        );
    } else {
        lemma_next_multiple(b as int, (q / b) as int);
        lemma_fundamental_div_mod_converse((q + 1) as int, b as int, (q / b + 1) as int, 0);
    }
}

/// The successor of `n` gains a digit exactly when it reaches the
/// denominator of `n`.
pub proof fn lemma_successor_digits(b: nat, n: nat)
    requires
        b >= 2,
    ensures
        n + 1 == radical_inverse_den(b, n) ==> radical_inverse_den(b, n + 1) == b
            * radical_inverse_den(b, n) && digit_count(b, n + 1) == digit_count(b, n) + 1,
        n + 1 != radical_inverse_den(b, n) ==> radical_inverse_den(b, n + 1)
            == radical_inverse_den(b, n) && digit_count(b, n + 1) == digit_count(b, n),
    decreases n,
{
    let q = n / b;
    lemma_successor_div_mod(b, n);
    lemma_fundamental_div_mod(n as int, b as int);
    lemma_mod_bound(n as int, b as int);
    if n == 0 {
        lemma_basic_div(1, b as int);
        lemma_basic_div(0, b as int);
        lemma_mul_basics(b as int);
    } else if n % b < b - 1 {
        // n + 1 is no multiple of b, while the denominator of n is one
        let d = radical_inverse_den(b, q);
        if n + 1 == b * d {
            lemma_fundamental_div_mod_converse(
                (n + 1) as int,
                b as int,
                d as int,
                0,
            );
            lemma_mul_is_commutative(b as int, d as int);
        }
    } else {
        lemma_div_decreases(n as int, b as int);
        lemma_successor_digits(b, q);
        let d = radical_inverse_den(b, q);
        lemma_next_multiple(b as int, q as int);
        if q + 1 != d {
            lemma_den_bounds(b, q);
            lemma_scale_le(b as int, (q + 2) as int, d as int);
            lemma_next_multiple(b as int, (q + 1) as int);
        }
    }
}

/// Dropping `k + 1` digits is dropping one digit and then `k` more.
pub proof fn lemma_drop_digits_low_first(b: nat, n: nat, k: nat)
    requires
        b >= 2,
    ensures
        drop_digits(b, n, k + 1) == drop_digits(b, n / b, k),
    decreases k,
{
    lemma_div_pos_is_pos(n as int, b as int);
    if k > 0 {
        lemma_drop_digits_low_first(b, n, (k - 1) as nat);
    } else {
        reveal_with_fuel(drop_digits, 2);
    }
}

/// Dropping digits leaves nothing exactly when all digits are dropped.
pub proof fn lemma_drop_digits_zero(b: nat, n: nat, k: nat)
    requires
        b >= 2,
    ensures
        k >= digit_count(b, n) <==> drop_digits(b, n, k) == 0,
    decreases k,
{
    if k > 0 {
        lemma_drop_digits_low_first(b, n, (k - 1) as nat);
        lemma_drop_digits_zero(b, n / b, (k - 1) as nat);
        lemma_basic_div(0, b as int);
    }
}

/// Dropping digits never gives more than there was.
pub proof fn lemma_drop_digits_le(b: nat, n: nat, k: nat)
    requires
        b >= 2,
    ensures
        drop_digits(b, n, k) <= n,
    decreases k,
{
    if k > 0 {
        lemma_drop_digits_le(b, n, (k - 1) as nat);
        let q = drop_digits(b, n, (k - 1) as nat);
        lemma_div_nonincreasing(q as int, b as int);
    }
}

/// While every digit of `n` below position `k` is `b - 1`, its successor `m`
/// has those digits cleared and a carry into position `k`.
pub proof fn lemma_carry_runs(b: nat, n: nat, m: nat, k: nat)
    requires
        b >= 2,
        m == n + 1,
        forall|j: nat| j < k ==> #[trigger] digit(b, n, j) == b - 1,
    ensures
        drop_digits(b, m, k) == drop_digits(b, n, k) + 1,
        forall|j: nat| j < k ==> #[trigger] digit(b, m, j) == 0,
    decreases k,
{
    if k > 0 {
        let k1 = (k - 1) as nat;
        lemma_carry_runs(b, n, m, k1);
        assert(digit(b, n, k1) == b - 1);
        lemma_successor_div_mod(b, drop_digits(b, n, k1));
    }
}

/// Where the carry stops, at a digit below `b - 1`, that digit grows by one
/// and nothing above it changes.
pub proof fn lemma_carry_stops(b: nat, n: nat, m: nat, k: nat, j: nat)
    requires
        b >= 2,
        drop_digits(b, m, k) == drop_digits(b, n, k) + 1,
        digit(b, n, k) < b - 1,
        j > k,
    ensures
        digit(b, m, k) == digit(b, n, k) + 1,
        drop_digits(b, m, j) == drop_digits(b, n, j),
    decreases j,
{
    lemma_successor_div_mod(b, drop_digits(b, n, k));
    if j > k + 1 {
        lemma_carry_stops(b, n, m, k, (j - 1) as nat);
    }
}

} // verus!
