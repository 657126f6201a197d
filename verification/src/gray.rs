//! Gray codes and the exclusive-or sums that they select: the arithmetic
//! behind the Sobol sequence.

use vstd::prelude::*;
use vstd::std_specs::bits::{axiom_u64_trailing_zeros, u64_trailing_zeros};

verus! {

/// The Gray code of `n`: consecutive numbers have codes that differ in one
/// bit.
pub open spec fn gray_code(n: u64) -> u64 {
    n ^ (n >> 1)
}

/// Bit `c` of `g` is set.
pub open spec fn bit_is_set(g: u64, c: nat) -> bool {
    (g >> (c as u64)) & 1 == 1
}

/// The exclusive-or of those among the first `k` entries of `row` whose
/// position is a set bit of `g`.
pub open spec fn xor_selected(row: Seq<u64>, g: u64, k: nat) -> u64
    decreases k,
{
    if k == 0 {
        0
    } else if bit_is_set(g, (k - 1) as nat) {
        xor_selected(row, g, (k - 1) as nat) ^ row[k - 1]
    } else {
        xor_selected(row, g, (k - 1) as nat)
    }
}

/// From `n` to `n + 1` the Gray code changes in the bit whose position is
/// the number of trailing one bits of `n`.
pub proof fn lemma_gray_code_step(n: u64, c: u64)
    requires
        n < 0x0000_ffff_ffff_ffff,
        c == u64_trailing_zeros(!n),
    ensures
        c < 48,
        gray_code((n + 1) as u64) == gray_code(n) ^ (1u64 << c),
{
    axiom_u64_trailing_zeros(!n);
    let i = !n;
    assert(i != 0) by (bit_vector)
        requires
            i == !n,
            n < 0x0000_ffff_ffff_ffffu64,
    ;
    let m = (n + 1) as u64;
    assert(c < 48 && (m ^ (m >> 1)) == (n ^ (n >> 1)) ^ (1u64 << c)) by (bit_vector)
        requires
            i == !n,
            n < 0x0000_ffff_ffff_ffffu64,
            m == n + 1,
            c < 64,
            (i >> c) & 1 == 1,
            i << (64 - c) as u64 == 0,
    ;
}

/// Flipping one bit of a number flips that bit and no other.
proof fn lemma_flip_bit(g: u64, c: u64, j: u64)
    by (bit_vector)
    requires
        c < 64,
        j < 64,
    ensures
        j == c ==> (((g ^ (1u64 << c)) >> j) & 1 == 1) != ((g >> j) & 1 == 1),
        j != c ==> (((g ^ (1u64 << c)) >> j) & 1 == 1) == ((g >> j) & 1 == 1),
{
}

/// Exclusive-or may be taken in any order, and taken twice it cancels.
proof fn lemma_xor_laws(a: u64, x: u64, y: u64)
    by (bit_vector)
    ensures
        (a ^ x) ^ x == a,
        (a ^ x) ^ y == (a ^ y) ^ x,
        a ^ 0 == a,
        0 ^ a == a,
{
}

/// Exclusive-or and shifts to the right stay within 48 bits.
pub proof fn lemma_within_48_bits(a: u64, b: u64, s: u64)
    by (bit_vector)
    requires
        a < 0x1_0000_0000_0000,
        b < 0x1_0000_0000_0000,
        s < 64,
    ensures
        a ^ b < 0x1_0000_0000_0000,
        a >> s < 0x1_0000_0000_0000,
{
}

/// Flipping bit `c` of the selecting number adds entry `c` to the sum, or
/// takes it out again, where the sum reaches that far.
pub proof fn lemma_xor_selected_flip(row: Seq<u64>, g: u64, c: nat, k: nat)
    requires
        c < 64,
        k <= 64,
    ensures
        xor_selected(row, g ^ (1u64 << (c as u64)), k) == if c < k {
            xor_selected(row, g, k) ^ row[c as int]
        } else {
            xor_selected(row, g, k)
        },
    decreases k,
{
    if k > 0 {
        let j = (k - 1) as nat;
        lemma_xor_selected_flip(row, g, c, j);
        lemma_flip_bit(g, c as u64, j as u64);
        let a = xor_selected(row, g, j);
        lemma_xor_laws(a, row[j as int], row[c as int]);
        lemma_xor_laws(a, row[c as int], row[j as int]);
    }
}

/// No bit set selects nothing: the sum is zero.
pub proof fn lemma_xor_selected_none(row: Seq<u64>, k: nat)
    requires
        k <= 64,
    ensures
        xor_selected(row, 0, k) == 0,
    decreases k,
{
    if k > 0 {
        let j = (k - 1) as u64;
        lemma_xor_selected_none(row, (k - 1) as nat);
        assert((0u64 >> j) & 1 == 0) by (bit_vector);
    }
}

/// A sum of entries within 48 bits is within 48 bits.
pub proof fn lemma_xor_selected_within_48_bits(row: Seq<u64>, g: u64, k: nat)
    requires
        k <= row.len(),
        forall|j: int| 0 <= j < k ==> #[trigger] row[j] < 0x1_0000_0000_0000,
    ensures
        xor_selected(row, g, k) < 0x1_0000_0000_0000,
    decreases k,
{
    if k > 0 {
        lemma_xor_selected_within_48_bits(row, g, (k - 1) as nat);
        lemma_within_48_bits(xor_selected(row, g, (k - 1) as nat), row[k - 1], 0);
    }
}

/// The lowest set bit of `v` is bit `47 - c`: as a fraction over two to the
/// 48, `v` is an odd number over two to the `c + 1`.
pub open spec fn lowest_bit_is(v: u64, c: nat) -> bool {
    v << ((16 + c) as u64) == 0x8000_0000_0000_0000
}

/// The bits of `v` from bit `47 - k` down are clear: as a fraction over two
/// to the 48, `v` is a whole number over two to the `k`.
pub open spec fn clear_from(v: u64, k: nat) -> bool {
    k >= 48 || v << ((16 + k) as u64) == 0
}

/// Each of the first 48 entries of `row` has its lowest set bit one place
/// below that of the entry before it, the first one at bit 47.
pub open spec fn is_triangular(row: Seq<u64>) -> bool {
    forall|c: int| 0 <= c < 48 && c < row.len() ==> lowest_bit_is(#[trigger] row[c], c as nat)
}

/// Exclusive-or keeps clear what is clear in both, and a lowest set bit
/// that only one has.
pub proof fn lemma_xor_keeps_low_bits(a: u64, r: u64, t: u64)
    by (bit_vector)
    requires
        t < 64,
        a << t == 0,
    ensures
        r << t == 0 ==> (a ^ r) << t == 0,
        r << t == 0x8000_0000_0000_0000 ==> (a ^ r) << t == 0x8000_0000_0000_0000 && a ^ r != 0,
{
}

/// What is clear from some bit down, or has its lowest set bit there, is
/// clear from every lower bit down.
pub proof fn lemma_clear_further_down(a: u64, t: u64, u: u64)
    by (bit_vector)
    requires
        t < u < 64,
        a << t == 0 || a << t == 0x8000_0000_0000_0000,
    ensures
        a << u == 0,
{
}

/// A number of at most `k + 1` bits whose bit `k` is clear has at most `k`
/// bits, and a number of at most `m` bits has no bit set from `m` on.
proof fn lemma_top_bits(z: u64, k: u64, m: u64)
    by (bit_vector)
    requires
        k < 63,
        m <= k,
    ensures
        z >> ((k + 1) as u64) == 0 && (z >> k) & 1 != 1 ==> z >> k == 0,
        z >> m == 0 ==> (z >> k) & 1 != 1,
        z >> 0 == z,
{
}

/// The bits of an exclusive-or are the exclusive-or of the bits.
proof fn lemma_xor_bits(a: u64, b: u64, j: u64)
    by (bit_vector)
    requires
        j < 64,
    ensures
        (((a ^ b) >> j) & 1 == 1) == (((a >> j) & 1 == 1) != ((b >> j) & 1 == 1)),
{
}

/// Exclusive-or of two exclusive-ors, regrouped.
proof fn lemma_xor_pairs(a: u64, b: u64, x: u64)
    by (bit_vector)
    ensures
        (a ^ x) ^ (b ^ x) == a ^ b,
        (a ^ x) ^ b == (a ^ b) ^ x,
        a ^ (b ^ x) == (a ^ b) ^ x,
        0u64 ^ 0u64 == 0,
{
}

/// The Gray code goes along with exclusive-or, keeps the number of bits,
/// and is zero for zero only.
pub proof fn lemma_gray_code_is_linear(a: u64, b: u64, m: u64)
    by (bit_vector)
    requires
        m < 64,
    ensures
        gray_code(a) ^ gray_code(b) == gray_code(a ^ b),
        a >> m == b >> m ==> gray_code(a ^ b) >> m == 0,
        a != b ==> gray_code(a ^ b) != 0 && gray_code(a) != gray_code(b),
{
}

/// Two numbers whose exclusive-or has a bit set from bit `s` up differ from
/// bit `s` up.
pub proof fn lemma_xor_tells_apart(a: u64, b: u64, x: u64, s: u64)
    by (bit_vector)
    requires
        s < 64,
        x == a ^ b,
        x != 0,
        s == 0 || x << ((64 - s) as u64) == 0,
    ensures
        a >> s != b >> s,
{
}

/// The sum that an exclusive-or selects is the exclusive-or of the sums
/// that its two parts select.
pub proof fn lemma_xor_selected_is_linear(row: Seq<u64>, a: u64, b: u64, k: nat)
    requires
        k <= 64,
    ensures
        xor_selected(row, a ^ b, k) == xor_selected(row, a, k) ^ xor_selected(row, b, k),
    decreases k,
{
    if k == 0 {
        lemma_xor_pairs(0, 0, 0);
    } else {
        let j = (k - 1) as nat;
        lemma_xor_selected_is_linear(row, a, b, j);
        lemma_xor_bits(a, b, j as u64);
        let sa = xor_selected(row, a, j);
        let sb = xor_selected(row, b, j);
        lemma_xor_pairs(sa, sb, row[j as int]);
    }
}

/// A number of at most `m` bits selects nothing beyond the first `m`
/// entries.
pub proof fn lemma_xor_selected_stops(row: Seq<u64>, z: u64, m: nat, k: nat)
    requires
        m <= k <= 48,
        z >> (m as u64) == 0,
    ensures
        xor_selected(row, z, k) == xor_selected(row, z, m),
    decreases k,
{
    if k > m {
        lemma_xor_selected_stops(row, z, m, (k - 1) as nat);
        lemma_top_bits(z, (k - 1) as u64, m as u64);
    }
}

/// With a triangular row, the sum over the first `k` entries is clear from
/// bit `47 - k` down.
pub proof fn lemma_xor_selected_is_clear(row: Seq<u64>, z: u64, k: nat)
    requires
        k <= 48,
        row.len() >= 48,
        is_triangular(row),
    ensures
        clear_from(xor_selected(row, z, k), k),
    decreases k,
{
    if k == 0 {
        assert(0u64 << 16 == 0) by (bit_vector);
    } else if k < 48 {
        let j = (k - 1) as nat;
        lemma_xor_selected_is_clear(row, z, j);
        let s = xor_selected(row, z, j);
        lemma_clear_further_down(s, (16 + j) as u64, (16 + k) as u64);
        lemma_clear_further_down(row[j as int], (16 + j) as u64, (16 + k) as u64);
        lemma_xor_keeps_low_bits(s, row[j as int], (16 + k) as u64);
    }
}

/// With a triangular row, a number of at most `k` bits that is not zero
/// selects a sum that is not zero.
pub proof fn lemma_xor_selected_is_not_zero(row: Seq<u64>, z: u64, k: nat)
    requires
        k <= 48,
        row.len() >= 48,
        is_triangular(row),
        z != 0,
        z >> (k as u64) == 0,
    ensures
        xor_selected(row, z, k) != 0,
    decreases k,
{
    if k == 0 {
        lemma_top_bits(z, 0, 0);
    } else {
        let j = (k - 1) as nat;
        let s = xor_selected(row, z, j);
        if bit_is_set(z, j) {
            lemma_xor_selected_is_clear(row, z, j);
            lemma_xor_keeps_low_bits(s, row[j as int], (16 + j) as u64);
        } else {
            lemma_top_bits(z, j as u64, 0);
            lemma_xor_selected_is_not_zero(row, z, j);
        }
    }
}

/// With a triangular row, two numbers that differ only in their lowest `m`
/// bits select sums that differ in their highest `m` bits of 48.
pub proof fn lemma_xor_selected_tells_apart(row: Seq<u64>, a: u64, b: u64, m: nat)
    requires
        1 <= m <= 48,
        row.len() >= 48,
        is_triangular(row),
        a != b,
        (a ^ b) >> (m as u64) == 0,
    ensures
        xor_selected(row, a, 48) >> ((48 - m) as u64) != xor_selected(row, b, 48) >> ((48 - m) as u64),
{
    let z = a ^ b;
    assert(z != 0) by (bit_vector)
        requires
            z == a ^ b,
            a != b,
    ;
    let x = xor_selected(row, z, 48);
    lemma_xor_selected_is_linear(row, a, b, 48);
    lemma_xor_selected_stops(row, z, m, 48);
    lemma_xor_selected_is_not_zero(row, z, m);
    lemma_xor_selected_is_clear(row, z, m);
    lemma_xor_tells_apart(
        xor_selected(row, a, 48),
        xor_selected(row, b, 48),
        x,
        (48 - m) as u64,
    );
}

} // verus!
