//! The Sobol sequence: direction numbers derived from a table of primitive
//! polynomials and seed values, and a generator that combines them along the
//! Gray code of its step counter.

use crate::error::Error;
use crate::fraction::Fraction;
use crate::gray::{
    gray_code, is_triangular, lemma_clear_further_down, lemma_gray_code_is_linear,
    lemma_gray_code_step, lemma_within_48_bits, lemma_xor_keeps_low_bits,
    lemma_xor_selected_flip, lemma_xor_selected_none, lemma_xor_selected_tells_apart,
    lemma_xor_selected_within_48_bits, lowest_bit_is, xor_selected,
};
use crate::traits::{next_position, QRng, MAX_LOG_N, MAX_N};
use vstd::arithmetic::div_mod::lemma_fundamental_div_mod_converse;
use vstd::prelude::*;
use vstd::slice::slice_subrange;
use vstd::std_specs::bits::{axiom_u64_trailing_zeros, u64_trailing_zeros};

verus! {

/// What the table holds for one axis: the coefficient word of the axis's
/// primitive polynomial, and the seed values of its direction numbers.
///
/// The polynomial has degree `seeds.len() + 1`; bit `t - 1` of `coef` is the
/// coefficient that goes with the direction number `t` places after the one
/// that the recurrence starts from. The seed at position `j` stands for the
/// odd number `2 * seeds[j] + 1`, the numerator of direction number `j + 1`.
pub struct AxisSeeds {
    /// The coefficient word.
    pub coef: u32,
    /// The seed values.
    pub seeds: Seq<u32>,
}

/// The seeds of one axis are in range: where seed `j` is used, it fits in
/// `j + 1` bits, so that the direction number made from it lies below one.
pub open spec fn seeds_in_range(seeds: Seq<u32>) -> bool {
    forall|j: int|
        0 <= j < seeds.len() && j < 47 ==> (#[trigger] seeds[j] as u64) >> ((j + 1) as u64) == 0
}

/// The seeds of axis `index + 1`, cut out of the flat array of all seeds.
pub open spec fn row_seeds(locs: Seq<u32>, dnum: Seq<u32>, index: int) -> Seq<u32> {
    dnum.subrange(locs[index] as int, locs[index + 1] as int)
}

/// The three flat arrays form a table: `locs` has one entry more than
/// `coef`, its entries ascend and stay within `dnum`, each axis's seeds are
/// in range, and the direction numbers of all axes can be held in memory.
pub open spec fn is_direction_table(locs: Seq<u32>, coef: Seq<u32>, dnum: Seq<u32>) -> bool {
    &&& locs.len() == coef.len() + 1
    &&& 48 * (coef.len() + 1) <= usize::MAX
    &&& forall|i: int, j: int| 0 <= i <= j < locs.len() ==> locs[i] <= locs[j]
    &&& locs.last() <= dnum.len()
    &&& forall|i: int| 0 <= i < coef.len() ==> seeds_in_range(#[trigger] row_seeds(locs, dnum, i))
}

/// The rows of the table that the three flat arrays form.
pub open spec fn table_rows(locs: Seq<u32>, coef: Seq<u32>, dnum: Seq<u32>) -> Seq<AxisSeeds> {
    Seq::new(
        coef.len(),
        |i: int| AxisSeeds { coef: coef[i], seeds: row_seeds(locs, dnum, i) },
    )
}

/// A table of primitive polynomials and seed values, one row for each axis
/// but the first: row `index` is for axis `index + 1`.
///
/// The table is kept as three flat arrays: the coefficient words, the seed
/// values of all rows one after the other, and for each row the place where
/// its seeds start.
pub struct DirectionTable {
    locs: Vec<u32>,
    coef: Vec<u32>,
    dnum: Vec<u32>,
}

impl View for DirectionTable {
    type V = Seq<AxisSeeds>;

    closed spec fn view(&self) -> Seq<AxisSeeds> {
        table_rows(self.locs@, self.coef@, self.dnum@)
    }
}

/// Whether the seeds of the row `start .. end` of `dnum` are in range.
fn check_row(dnum: &Vec<u32>, start: usize, end: usize) -> (ok: bool)
    requires
        start <= end <= dnum.len(),
    ensures
        ok == seeds_in_range(dnum@.subrange(start as int, end as int)),
{
    let ghost row = dnum@.subrange(start as int, end as int);
    let mut j: usize = 0;
    while j < end - start && j < 47
        invariant
            start <= end <= dnum.len(),
            j <= end - start,
            j <= 47,
            row == dnum@.subrange(start as int, end as int),
            forall|k: int| 0 <= k < j ==> (#[trigger] row[k] as u64) >> ((k + 1) as u64) == 0,
        decreases 47 - j,
    {
        let seed = dnum[start + j];
        assert(seed == row[j as int]);
        if (seed as u64) >> ((j + 1) as u64) != 0 {
            return false;
        }
        j += 1;
    }
    true
}

impl DirectionTable {
    /// The table's parts fit together.
    pub closed spec fn inv(&self) -> bool {
        is_direction_table(self.locs@, self.coef@, self.dnum@)
    }

    /// The largest dimensionality that the table supports: one more than
    /// its number of rows, the first axis needing none.
    pub open spec fn spec_max_dim(&self) -> nat {
        self@.len() + 1
    }

    /// Makes a table of its three flat arrays: for each row the place in
    /// `dnum` where its seeds start, with the end of the last row as one more
    /// entry; the coefficient words; and the seeds. Returns `None` where the
    /// arrays do not form a table.
    pub fn new(locs: Vec<u32>, coef: Vec<u32>, dnum: Vec<u32>) -> (r: Option<Self>)
        ensures
            r is Some <==> is_direction_table(locs@, coef@, dnum@),
            r matches Some(t) ==> t.inv() && t@ == table_rows(locs@, coef@, dnum@),
    {
        let rows = coef.len();
        if rows >= usize::MAX / 48 || locs.len() != rows + 1 {
            return None;
        }
        if locs[0] as usize > dnum.len() {
            return None;
        }
        let mut i: usize = 0;
        while i < rows
            invariant
                i <= rows,
                rows == coef.len(),
                locs.len() == rows + 1,
                forall|a: int, b: int| 0 <= a <= b <= i ==> locs[a] <= locs[b],
                locs[i as int] <= dnum.len(),
                forall|a: int| 0 <= a < i ==> seeds_in_range(#[trigger] row_seeds(locs@, dnum@, a)),
            decreases rows - i,
        {
            let start = locs[i] as usize;
            let end = locs[i + 1] as usize;
            if end < start || end > dnum.len() {
                return None;
            }
            if !check_row(&dnum, start, end) {
                assert(!seeds_in_range(row_seeds(locs@, dnum@, i as int)));
                return None;
            }
            i += 1;
        }
        Some(DirectionTable { locs, coef, dnum })
    }

    /// The largest dimensionality that the table supports.
    pub fn max_dim(&self) -> (n: usize)
        requires
            self.inv(),
        ensures
            n == self.spec_max_dim(),
    {
        self.coef.len() + 1
    }
}

/// Looks up row `index` of the table: the coefficient word and the seeds of
/// axis `index + 1`. An axis beyond the table's largest dimensionality is
/// refused with `Error::InvalidDimension`.
pub fn get_raw_data<'a>(table: &'a DirectionTable, index: usize) -> (r: Result<
    (u32, &'a [u32]),
    Error,
>)
    requires
        table.inv(),
    ensures
        r is Err <==> index + 2 > table.spec_max_dim(),
        r is Err ==> r == Err::<(u32, &[u32]), Error>(Error::InvalidDimension),
        r matches Ok(row) ==> row.0 == table@[index as int].coef && row.1@ == table@[index as int].seeds,
{
    if index >= table.coef.len() {
        return Err(Error::InvalidDimension);
    }
    let start = table.locs[index] as usize;
    let end = table.locs[index + 1] as usize;
    Ok((table.coef[index], slice_subrange(table.dnum.as_slice(), start, end)))
}

/// The direction number that follows the direction numbers `p` of an axis
/// with the table row `row`.
///
/// The first is one half. The next ones come from the seeds: seed `j` gives
/// direction number `j + 1`, the odd number `2 * seeds[j] + 1` over two to
/// the `j + 2`. From position `s = seeds.len() + 1` on, each is the
/// exclusive-or of the one `s` places back, of the same shifted right by `s`
/// bits, and of those among the `s - 1` in between that `coef` selects.
///
/// A direction number is kept as the numerator of a fraction over `MAX_N`.
pub open spec fn next_direction_number(row: AxisSeeds, p: Seq<u64>) -> u64 {
    let i = p.len() as int;
    let s = row.seeds.len() + 1;
    if i == 0 {
        1u64 << 47
    } else if i < s {
        ((2 * row.seeds[i - 1] + 1) as u64) << ((47 - i) as u64)
    } else {
        p[i - s] ^ (p[i - s] >> (s as u64)) ^ xor_selected(
            p.subrange(i - s + 1, i),
            row.coef as u64,
            (s - 1) as nat,
        )
    }
}

/// The first `n` direction numbers of an axis with the table row `row`.
pub open spec fn direction_numbers(row: AxisSeeds, n: nat) -> Seq<u64>
    decreases n,
{
    if n == 0 {
        Seq::empty()
    } else {
        let p = direction_numbers(row, (n - 1) as nat);
        p.push(next_direction_number(row, p))
    }
}

/// The direction numbers of the first axis: one half, one quarter, and so
/// on, which give the van der Corput sequence in base two.
pub open spec fn first_axis_direction_numbers() -> Seq<u64> {
    Seq::new(48, |i: int| 1u64 << ((47 - i) as u64))
}

/// The `MAX_LOG_N` direction numbers of axis `axis`.
pub open spec fn axis_direction_numbers(table: Seq<AxisSeeds>, axis: int) -> Seq<u64> {
    if axis == 0 {
        first_axis_direction_numbers()
    } else {
        direction_numbers(table[axis - 1], 48)
    }
}

/// Each axis has `MAX_LOG_N` direction numbers.
pub proof fn lemma_direction_numbers_len(row: AxisSeeds, n: nat)
    ensures
        direction_numbers(row, n).len() == n,
    decreases n,
{
    if n > 0 {
        lemma_direction_numbers_len(row, (n - 1) as nat);
    }
}

/// Every entry of `d` lies below `MAX_N`.
pub open spec fn all_below_one(d: Seq<u64>) -> bool {
    forall|i: int| 0 <= i < d.len() ==> #[trigger] d[i] < MAX_N
}

/// A single bit at one of the 48 positions lies below `MAX_N`.
proof fn lemma_single_bit(i: u64)
    by (bit_vector)
    requires
        i < 48,
    ensures
        (1u64 << ((47 - i) as u64)) < 0x1_0000_0000_0000,
        (1u64 << 47) < 0x1_0000_0000_0000,
        (1u64 << ((47 - i) as u64)) << ((16 + i) as u64) == 0x8000_0000_0000_0000,
        (1u64 << 47) << 16 == 0x8000_0000_0000_0000,
{
}

/// A seed that fits in `i` bits gives a direction number below `MAX_N`.
proof fn lemma_seed_direction_number(seed: u64, i: u64)
    by (bit_vector)
    requires
        1 <= i <= 47,
        seed >> i == 0,
    ensures
        seed * 2 + 1 <= 0xffff_ffff_ffff_ffff,
        (((seed * 2 + 1) as u64) << ((47 - i) as u64)) < 0x1_0000_0000_0000,
        (((seed * 2 + 1) as u64) << ((47 - i) as u64)) << ((16 + i) as u64)
            == 0x8000_0000_0000_0000,
{
}

/// Shifting right by one, `t` times and once more.
proof fn lemma_shift_once_more(coef: u64, t: u64)
    by (bit_vector)
    requires
        t < 63,
    ensures
        (coef >> t) >> 1 == coef >> ((t + 1) as u64),
        coef >> 0 == coef,
{
}

/// A direction number shifted right by `s` places has its lowest set bit
/// `s` places further down, and is itself clear from there down.
proof fn lemma_shifted_direction_number(v: u64, i: u64, s: u64)
    by (bit_vector)
    requires
        1 <= s <= i <= 47,
        v < 0x1_0000_0000_0000,
        v << ((16 + i - s) as u64) == 0x8000_0000_0000_0000,
    ensures
        (v >> s) << ((16 + i) as u64) == 0x8000_0000_0000_0000,
        v << ((16 + i) as u64) == 0,
{
}

/// Exclusive-or may be regrouped.
proof fn lemma_xor_regroup(a: u64, b: u64, c: u64)
    by (bit_vector)
    ensures
        (a ^ b) ^ c == a ^ (b ^ c),
        a ^ b == b ^ a,
        a ^ 0 == a,
{
}

/// Derives the `MAX_LOG_N` direction numbers of axis `axis` from its row of
/// the table. An axis beyond the table's largest dimensionality is refused
/// with `Error::InvalidDimension`.
pub fn get_dirnums(table: &DirectionTable, axis: usize) -> (r: Result<Vec<u64>, Error>)
    requires
        table.inv(),
    ensures
        r is Err <==> axis >= table.spec_max_dim(),
        r is Err ==> r == Err::<Vec<u64>, Error>(Error::InvalidDimension),
        r matches Ok(d) ==> d@ == axis_direction_numbers(table@, axis as int) && d.len() == 48
            && all_below_one(d@) && is_triangular(d@),
{
    let mut d: Vec<u64> = Vec::with_capacity(MAX_LOG_N);
    if axis == 0 {
        let mut i: usize = 0;
        while i < 48
            invariant
                i <= 48,
                d.len() == i,
                forall|k: int| 0 <= k < i ==> #[trigger] d[k] == 1u64 << ((47 - k) as u64),
                all_below_one(d@),
                is_triangular(d@),
            decreases 48 - i,
        {
            proof {
                lemma_single_bit(i as u64);
            }
            d.push(1u64 << ((47 - i) as u64));
            i += 1;
        }
        return Ok(d);
    }
    let (coef, m) = match get_raw_data(table, axis - 1) {
        Ok(row) => row,
        Err(e) => {
            return Err(e);
        },
    };
    let ghost row = table@[axis - 1];
    let coef = coef as u64;
    // The number of direction numbers that come from the seeds, the first
    // one included.
    let s: usize = if m.len() >= 48 {
        48
    } else {
        m.len() + 1
    };
    proof {
        lemma_single_bit(0);
    }
    d.push(1u64 << 47);
    assert(d@ =~= direction_numbers(row, 1)) by {
        reveal_with_fuel(direction_numbers, 2);
    }
    let mut i: usize = 1;
    while i < s
        invariant
            1 <= i <= s <= 48,
            s <= m@.len() + 1,
            m@ == row.seeds,
            seeds_in_range(row.seeds),
            d.len() == i,
            d@ == direction_numbers(row, i as nat),
            all_below_one(d@),
            is_triangular(d@),
        decreases s - i,
    {
        let seed = m[i - 1] as u64;
        proof {
            lemma_seed_direction_number(seed, i as u64);
        }
        d.push((seed * 2 + 1) << ((47 - i) as u64));
        i += 1;
    }
    while i < 48
        invariant
            1 <= i <= 48,
            s <= i,
            s < 48 ==> s == m@.len() + 1,
            m@ == row.seeds,
            coef == row.coef,
            d.len() == i,
            d@ == direction_numbers(row, i as nat),
            all_below_one(d@),
            is_triangular(d@),
        decreases 48 - i,
    {
        let ghost window = d@.subrange(i - s + 1, i as int);
        let dk = d[i - s];
        let mut x = dk ^ (dk >> (s as u64));
        let mut coef_s = coef;
        let mut k = i - s + 1;
        let mut t: usize = 1;
        proof {
            lemma_within_48_bits(dk, dk, s as u64);
            lemma_within_48_bits(dk, dk >> (s as u64), 0);
            lemma_shift_once_more(coef, 0);
            lemma_xor_regroup(x, 0, 0);
            lemma_shifted_direction_number(dk, i as u64, s as u64);
            lemma_xor_keeps_low_bits(dk, dk >> (s as u64), (16 + i) as u64);
        }
        while t < s
            invariant
                1 <= t <= s <= i < 48,
                d.len() == i,
                k == i - s + t,
                window == d@.subrange(i - s + 1, i as int),
                all_below_one(d@),
                coef_s == coef >> ((t - 1) as u64),
                x == (dk ^ (dk >> (s as u64))) ^ xor_selected(window, coef, (t - 1) as nat),
                x < MAX_N,
                is_triangular(d@),
                lowest_bit_is(x, i as nat),
            decreases s - t,
        {
            let ghost sum = xor_selected(window, coef, (t - 1) as nat);
            proof {
                lemma_shift_once_more(coef, (t - 1) as u64);
                lemma_xor_regroup(dk ^ (dk >> (s as u64)), sum, d[k as int]);
                lemma_within_48_bits(x, d[k as int], 0);
                lemma_clear_further_down(d[k as int], (16 + k) as u64, (16 + i) as u64);
                lemma_xor_keeps_low_bits(d[k as int], x, (16 + i) as u64);
                lemma_xor_regroup(x, d[k as int], 0);
            }
            if coef_s & 1 == 1 {
                x = x ^ d[k];
            }
            coef_s = coef_s >> 1;
            k += 1;
            t += 1;
        }
        d.push(x);
        i += 1;
    }
    Ok(d)
}

/// Places in a matrix of `n` columns, stored row after row, are told apart
/// by their row and column.
proof fn lemma_matrix_places(n: int, c: int, j: int, c2: int, j2: int)
    requires
        0 <= j < n,
        0 <= j2 < n,
        0 <= c < 48,
        0 <= c2,
    ensures
        0 <= c * n + j < 48 * n,
        c * n + j == c2 * n + j2 ==> c == c2 && j == j2,
{
    assert(0 <= c * n + j < 48 * n) by (nonlinear_arith)
        requires
            0 <= j < n,
            0 <= c < 48,
    ;
    if c * n + j == c2 * n + j2 {
        lemma_fundamental_div_mod_converse(c * n + j, n, c, j);
        lemma_fundamental_div_mod_converse(c2 * n + j2, n, c2, j2);
    }
}

/// The entry in row `c`, column `j` of a matrix of `n` columns that is
/// stored row after row.
pub open spec fn entry(matrix: Seq<u64>, n: int, c: int, j: int) -> u64 {
    matrix[c * n + j]
}

/// Sobol low-discrepancy sequence generator.
///
/// The direction numbers are derived once, at construction, from a table of
/// primitive polynomials modulo two and seed values, such as that of Joe and
/// Kuo, "Constructing Sobol Sequences with Better Two-Dimensional
/// Projections" (2008).
pub struct SobolSeq {
    ndim: usize,
    dirnums: Vec<u64>,
    value: Vec<u64>,
    index: u64,
}

impl SobolSeq {
    /// The direction numbers, axis by axis: `MAX_LOG_N` for each.
    pub closed spec fn rows(&self) -> Seq<Seq<u64>> {
        Seq::new(
            self.ndim as nat,
            |j: int| Seq::new(48, |c: int| entry(self.dirnums@, self.ndim as int, c, j)),
        )
    }

    /// The step counter: how many points have been drawn in this period.
    pub closed spec fn index(&self) -> nat {
        self.index as nat
    }

    /// The running exclusive-or sums, one for each axis.
    pub closed spec fn accumulators(&self) -> Seq<u64> {
        self.value@
    }

    /// The numerator over `MAX_N` of the coordinate on axis `j` of the
    /// point with number `n`: the exclusive-or of the axis's direction
    /// numbers that the Gray code of `n` selects.
    pub open spec fn coordinate(&self, j: int, n: nat) -> u64 {
        xor_selected(self.rows()[j], gray_code(n as u64), 48)
    }

    /// The running sums are the numerators of the point whose number the
    /// step counter shows, and every direction number is a numerator below
    /// `MAX_N` whose lowest set bit lies one place below that of the
    /// direction number before it.
    pub proof fn lemma_state(&self, j: int)
        requires
            self.inv(),
            0 <= j < self.dim(),
        ensures
            self.index() < MAX_N,
            self.accumulators().len() == self.dim(),
            self.accumulators()[j] == self.coordinate(j, self.index()),
            self.rows()[j].len() == 48,
            all_below_one(self.rows()[j]),
            is_triangular(self.rows()[j]),
    {
        assert forall|c: int| 0 <= c < 48 implies #[trigger] self.rows()[j][c] < MAX_N by {
            lemma_matrix_places(self.ndim as int, c, j, 0, 0);
        }
    }

    /// Along each axis the points are stratified: among the points whose
    /// numbers differ only in their lowest `m` bits, which are `2^m`
    /// consecutive points from a multiple of `2^m` on, no two lie in the
    /// same interval of length `2^-m`.
    ///
    /// Shifting a number to the right by `m` bits leaves out its lowest `m`
    /// bits; shifting a coordinate's numerator by `48 - m` bits gives the
    /// number of the interval of length `2^-m` that the coordinate lies in.
    pub proof fn lemma_axis_is_stratified(&self, j: int, m: nat, n1: nat, n2: nat)
        requires
            self.inv(),
            0 <= j < self.dim(),
            1 <= m <= 48,
            n1 < MAX_N,
            n2 < MAX_N,
            n1 != n2,
            (n1 as u64) >> (m as u64) == (n2 as u64) >> (m as u64),
        ensures
            self.coordinate(j, n1) >> ((48 - m) as u64) != self.coordinate(j, n2) >> ((48 - m) as u64),
    {
        let a = n1 as u64;
        let b = n2 as u64;
        lemma_gray_code_is_linear(a, b, m as u64);
        lemma_xor_selected_tells_apart(self.rows()[j], gray_code(a), gray_code(b), m);
    }

    /// Returns a new Sobol sequence generator with dimensionality `ndim`,
    /// its direction numbers derived from `table`. A dimensionality above
    /// the table's largest is refused with `Error::InvalidDimension`.
    pub fn new(ndim: usize, table: &DirectionTable) -> (r: Result<Self, Error>)
        requires
            table.inv(),
        ensures
            r is Err <==> ndim > table.spec_max_dim(),
            r is Err ==> r matches Err(Error::InvalidDimension),
            r matches Ok(s) ==> {
                &&& s.inv()
                &&& s.dim() == ndim
                &&& s.index() == 0
                &&& s.position() == 0
                &&& forall|j: int|
                    0 <= j < ndim ==> #[trigger] s.rows()[j] == axis_direction_numbers(table@, j)
            },
    {
        if ndim > table.max_dim() {
            return Err(Error::InvalidDimension);
        }
        let mut dirnums: Vec<u64> = vec![0u64; ndim * MAX_LOG_N];
        let mut j: usize = 0;
        while j < ndim
            invariant
                j <= ndim <= table.spec_max_dim(),
                table.inv(),
                dirnums.len() == 48 * ndim,
                forall|a: int, c: int|
                    0 <= a < j && 0 <= c < 48 ==> #[trigger] entry(dirnums@, ndim as int, c, a)
                        == axis_direction_numbers(table@, a)[c],
                forall|a: int|
                    0 <= a < j ==> is_triangular(#[trigger] axis_direction_numbers(table@, a)),
                forall|i: int| 0 <= i < dirnums.len() ==> #[trigger] dirnums[i] < MAX_N,
            decreases ndim - j,
        {
            let d = match get_dirnums(table, j) {
                Ok(d) => d,
                Err(e) => {
                    return Err(e);
                },
            };
            let mut c: usize = 0;
            while c < 48
                invariant
                    c <= 48,
                    j < ndim,
                    d.len() == 48,
                    d@ == axis_direction_numbers(table@, j as int),
                    all_below_one(d@),
                    dirnums.len() == 48 * ndim,
                    forall|a: int, b: int|
                        0 <= a < j && 0 <= b < 48 ==> #[trigger] entry(dirnums@, ndim as int, b, a)
                            == axis_direction_numbers(table@, a)[b],
                    forall|b: int|
                        0 <= b < c ==> #[trigger] entry(dirnums@, ndim as int, b, j as int) == d[b],
                    forall|i: int| 0 <= i < dirnums.len() ==> #[trigger] dirnums[i] < MAX_N,
                decreases 48 - c,
            {
                let ghost before = dirnums@;
                proof {
                    lemma_matrix_places(ndim as int, c as int, j as int, 0, 0);
                }
                dirnums[c * ndim + j] = d[c];
                proof {
                    assert forall|a: int, b: int| 0 <= a < ndim && 0 <= b < 48 && (a != j || b
                        != c) implies #[trigger] entry(dirnums@, ndim as int, b, a) == entry(
                        before,
                        ndim as int,
                        b,
                        a,
                    ) by {
                        lemma_matrix_places(ndim as int, c as int, j as int, b, a);
                        lemma_matrix_places(ndim as int, b, a, 0, 0);
                    }
                }
                c += 1;
            }
            j += 1;
        }
        let value: Vec<u64> = vec![0u64; ndim];
        let s = SobolSeq { ndim, dirnums, value, index: 0 };
        proof {
            assert forall|j: int| 0 <= j < ndim implies #[trigger] s.rows()[j]
                == axis_direction_numbers(table@, j) by {
                if j > 0 {
                    lemma_direction_numbers_len(table@[j - 1], 48);
                }
            }
            assert forall|j: int| 0 <= j < ndim implies #[trigger] s.value[j] == s.coordinate(
                j,
                0,
            ) by {
                assert(gray_code(0) == 0) by (bit_vector);
                lemma_xor_selected_none(s.rows()[j], 48);
            }
        }
        Ok(s)
    }
}

impl Clone for SobolSeq {
    fn clone(&self) -> (s: Self)
        ensures
            s.rows() == self.rows(),
            s.index() == self.index(),
            s.accumulators() == self.accumulators(),
            self.inv() ==> s.inv(),
    {
        let s = SobolSeq {
            ndim: self.ndim,
            dirnums: self.dirnums.clone(),
            value: self.value.clone(),
            index: self.index,
        };
        s
    }
}

impl QRng for SobolSeq {
    closed spec fn inv(&self) -> bool {
        &&& self.index < MAX_N
        &&& self.value.len() == self.ndim
        &&& self.dirnums.len() == 48 * self.ndim
        &&& forall|i: int| 0 <= i < self.dirnums.len() ==> #[trigger] self.dirnums[i] < MAX_N
        &&& forall|j: int| 0 <= j < self.ndim ==> is_triangular(#[trigger] self.rows()[j])
        &&& forall|j: int|
            0 <= j < self.ndim ==> #[trigger] self.value[j] == self.coordinate(
                j,
                self.index as nat,
            )
    }

    open spec fn dim(&self) -> nat {
        self.rows().len()
    }

    open spec fn position(&self) -> nat {
        self.index()
    }

    /// The draw from position `k` yields the point with number `k + 1`,
    /// and at the end of the period the point with number zero.
    open spec fn point(&self, k: nat) -> Seq<Fraction> {
        Seq::new(
            self.rows().len(),
            |j: int|
                Fraction { num: self.coordinate(j, next_position(k)) as u128, den: MAX_N as u128 },
        )
    }

    proof fn lemma_clone_stands_alike(&self, other: &Self) {
    }

    fn ndim(&self) -> (n: usize) {
        self.ndim
    }

    fn gen_fill_unchecked(&mut self, out: &mut [Fraction])
        ensures
            final(self).rows() == old(self).rows(),
            final(self).index() == next_position(old(self).index()),
            forall|j: int|
                0 <= j < old(self).dim() ==> {
                    &&& (#[trigger] final(out)@[j]).num == old(self).coordinate(
                        j,
                        next_position(old(self).index()),
                    )
                    &&& final(out)@[j].den == MAX_N
                },
    {
        let ndim = self.ndim;
        let n = self.index;
        let c = (!n).trailing_zeros() as usize;
        let ghost after = next_position(n as nat);
        if c >= MAX_LOG_N {
            // The period ends: no bit of the counter is left to flip. The
            // sums go back to zero, where they were before the first draw.
            proof {
                if n < MAX_N - 1 {
                    lemma_gray_code_step(n, c as u64);
                }
                assert(gray_code(0) == 0) by (bit_vector);
            }
            let mut j: usize = 0;
            while j < ndim
                invariant
                    j <= ndim,
                    ndim == self.ndim,
                    ndim == self.value.len(),
                    ndim <= out@.len(),
                    out@.len() == old(out)@.len(),
                    after == 0,
                    self.index == n,
                    self.dirnums == old(self).dirnums,
                    forall|a: int| 0 <= a < j ==> #[trigger] self.value[a] == 0,
                    forall|a: int|
                        0 <= a < j ==> #[trigger] out@[a] == (Fraction { num: 0, den: MAX_N as u128 }),
                    forall|a: int| j <= a < out@.len() ==> out@[a] == old(out)@[a],
                decreases ndim - j,
            {
                self.value[j] = 0;
                out[j] = Fraction { num: 0, den: MAX_N as u128 };
                j += 1;
            }
            proof {
                assert forall|a: int| 0 <= a < ndim implies #[trigger] self.value[a] == old(
                    self,
                ).coordinate(a, after) by {
                    lemma_xor_selected_none(old(self).rows()[a], 48);
                }
                assert forall|a: int| 0 <= a < ndim implies #[trigger] out@[a] == (Fraction {
                    num: old(self).coordinate(a, after) as u128,
                    den: MAX_N as u128,
                }) by {
                    lemma_xor_selected_none(old(self).rows()[a], 48);
                }
            }
        } else {
            proof {
                axiom_u64_trailing_zeros(!n);
                assert(n != 0xffff_ffff_ffffu64) by {
                    assert(u64_trailing_zeros(!0xffff_ffff_ffffu64) == 48) by {
                        lemma_trailing_ones_of_full_period();
                    }
                }
                lemma_gray_code_step(n, c as u64);
            }
            let mut j: usize = 0;
            while j < ndim
                invariant
                    j <= ndim,
                    ndim == self.ndim,
                    ndim == self.value.len(),
                    ndim <= out@.len(),
                    out@.len() == old(out)@.len(),
                    c < 48,
                    n < MAX_N - 1,
                    after == n + 1,
                    self.index == n,
                    old(self).inv(),
                    old(self).index == n,
                    self.dirnums == old(self).dirnums,
                    self.dirnums.len() == 48 * ndim,
                    gray_code((n + 1) as u64) == gray_code(n) ^ (1u64 << (c as u64)),
                    forall|a: int|
                        0 <= a < j ==> #[trigger] self.value[a] == old(self).coordinate(a, after),
                    forall|a: int| j <= a < ndim ==> #[trigger] self.value[a] == old(self).value[a],
                    forall|a: int|
                        0 <= a < j ==> #[trigger] out@[a] == (Fraction {
                            num: old(self).coordinate(a, after) as u128,
                            den: MAX_N as u128,
                        }),
                    forall|a: int| j <= a < out@.len() ==> out@[a] == old(out)@[a],
                decreases ndim - j,
            {
                proof {
                    lemma_matrix_places(ndim as int, c as int, j as int, 0, 0);
                    let row = old(self).rows()[j as int];
                    lemma_xor_selected_flip(row, gray_code(n), c as nat, 48);
                }
                let x = self.value[j] ^ self.dirnums[c * ndim + j];
                self.value[j] = x;
                out[j] = Fraction { num: x as u128, den: MAX_N as u128 };
                j += 1;
            }
        }
        self.index = (n + 1) % MAX_N;
        proof {
            assert forall|a: int| 0 <= a < ndim implies (#[trigger] out@[a]).below_one() by {
                assert forall|b: int| 0 <= b < 48 implies #[trigger] self.rows()[a][b] < MAX_N by {
                    lemma_matrix_places(ndim as int, b, a, 0, 0);
                }
                lemma_xor_selected_within_48_bits(self.rows()[a], gray_code(after as u64), 48);
            }
        }
    }
}

/// At the end of the period, all 48 bits of the counter are set.
proof fn lemma_trailing_ones_of_full_period()
    ensures
        u64_trailing_zeros(!0xffff_ffff_ffffu64) == 48,
{
    let i = !0xffff_ffff_ffffu64;
    axiom_u64_trailing_zeros(i);
    let c = u64_trailing_zeros(i) as u64;
    assert(i == 0xffff_0000_0000_0000u64) by (bit_vector)
        requires
            i == !0xffff_ffff_ffffu64,
    ;
    assert(c == 48) by (bit_vector)
        requires
            i == 0xffff_0000_0000_0000u64,
            c <= 64,
            c < 64 ==> (i >> c) & 1 == 1,
            i << ((64 - c) as u64) == 0,
    ;
}

} // verus!
