use qrng::sobol::{get_dirnums, get_raw_data};
use qrng::{Buffered, DirectionTable, Error, Fraction, QRng, SobolSeq};

const MAX_N: u128 = 1 << 48;

fn to_f64(x: Fraction) -> f64 {
    (x.num as f64) / (x.den as f64)
}

/// The rows of the table for the axes 1 to 19.
const ROWS: [(u32, &[u32]); 19] = [
    (0, &[]),
    (1, &[1]),
    (1, &[1, 0]),
    (2, &[0, 0]),
    (1, &[0, 1, 1]),
    (4, &[1, 2, 6]),
    (2, &[0, 2, 2, 8]),
    (4, &[0, 2, 2, 2]),
    (7, &[0, 3, 5, 9]),
    (11, &[0, 2, 0, 0]),
    (13, &[0, 0, 1, 5]),
    (14, &[1, 2, 2, 15]),
    (1, &[1, 1, 4, 3, 24]),
    (13, &[0, 0, 7, 10, 10]),
    (16, &[1, 0, 6, 13, 24]),
    (19, &[0, 0, 7, 3, 2]),
    (22, &[1, 0, 7, 6, 12]),
    (25, &[0, 2, 2, 9, 30]),
    (1, &[1, 3, 5, 11, 7, 51]),
];

/// Flattens rows into the three arrays of a table.
fn flatten(rows: &[(u32, Vec<u32>)]) -> (Vec<u32>, Vec<u32>, Vec<u32>) {
    let (mut locs, mut coef, mut dnum) = (vec![0u32], Vec::new(), Vec::new());
    for (c, seeds) in rows {
        coef.push(*c);
        dnum.extend_from_slice(seeds);
        locs.push(dnum.len() as u32);
    }
    (locs, coef, dnum)
}

fn table_of(rows: &[(u32, Vec<u32>)]) -> DirectionTable {
    let (locs, coef, dnum) = flatten(rows);
    DirectionTable::new(locs, coef, dnum).unwrap()
}

fn small_table() -> DirectionTable {
    let rows: Vec<(u32, Vec<u32>)> = ROWS.iter().map(|(c, m)| (*c, m.to_vec())).collect();
    table_of(&rows)
}

/// A table for 1111 axes that holds the rows looked up below; the rows in
/// between are left without seeds.
fn sparse_table() -> DirectionTable {
    let mut rows: Vec<(u32, Vec<u32>)> = vec![(0, Vec::new()); 1110];
    for (i, (c, m)) in ROWS.iter().enumerate().take(8) {
        rows[i] = (*c, m.to_vec());
    }
    rows[100] = (4, vec![1, 0, 7, 2, 2, 18, 113, 111, 229]);
    rows[1108] = (4091, vec![1, 0, 1, 13, 1, 1, 86, 195, 106, 401, 1640, 1603]);
    rows[1109] = (4094, vec![0, 2, 7, 9, 0, 3, 105, 78, 301, 201, 693, 791]);
    table_of(&rows)
}

#[test]
fn test_sobol_seq() {
    let expected = vec![
        [0.5, 0.5, 0.5, 0.5, 0.5, 0.5, 0.5, 0.5],
        [0.75, 0.25, 0.25, 0.25, 0.75, 0.75, 0.25, 0.75],
        [0.25, 0.75, 0.75, 0.75, 0.25, 0.25, 0.75, 0.25],
        [0.375, 0.375, 0.625, 0.875, 0.375, 0.125, 0.375, 0.875],
        [0.875, 0.875, 0.125, 0.375, 0.875, 0.625, 0.875, 0.375],
        [0.625, 0.125, 0.875, 0.625, 0.625, 0.875, 0.125, 0.125],
        [0.125, 0.625, 0.375, 0.125, 0.125, 0.375, 0.625, 0.625],
        [0.1875, 0.3125, 0.9375, 0.4375, 0.5625, 0.3125, 0.4375, 0.9375],
        [0.6875, 0.8125, 0.4375, 0.9375, 0.0625, 0.8125, 0.9375, 0.4375],
        [0.9375, 0.0625, 0.6875, 0.1875, 0.3125, 0.5625, 0.1875, 0.1875],
        [0.4375, 0.5625, 0.1875, 0.6875, 0.8125, 0.0625, 0.6875, 0.6875],
        [0.3125, 0.1875, 0.3125, 0.5625, 0.9375, 0.4375, 0.0625, 0.0625],
        [0.8125, 0.6875, 0.8125, 0.0625, 0.4375, 0.9375, 0.5625, 0.5625],
        [0.5625, 0.4375, 0.0625, 0.8125, 0.1875, 0.6875, 0.3125, 0.8125],
        [0.0625, 0.9375, 0.5625, 0.3125, 0.6875, 0.1875, 0.8125, 0.3125],
        [0.09375, 0.46875, 0.46875, 0.65625, 0.28125, 0.96875, 0.53125, 0.84375],
        [0.59375, 0.96875, 0.96875, 0.15625, 0.78125, 0.46875, 0.03125, 0.34375],
        [0.84375, 0.21875, 0.21875, 0.90625, 0.53125, 0.21875, 0.78125, 0.09375],
        [0.34375, 0.71875, 0.71875, 0.40625, 0.03125, 0.71875, 0.28125, 0.59375],
        [0.46875, 0.09375, 0.84375, 0.28125, 0.15625, 0.84375, 0.90625, 0.21875],
    ];
    let mut seq = SobolSeq::new(8, &small_table()).unwrap().with_buf();
    for e in &expected {
        let x: Vec<f64> = seq.gen().iter().map(|&f| to_f64(f)).collect();
        assert_eq!(x.as_slice(), e.as_ref());
    }
}

#[test]
fn test_sobol_seq_mean() {
    const LEN: usize = 100_000;
    const NDIM: usize = 20;
    let mut seq = SobolSeq::new(NDIM, &small_table()).unwrap().with_buf();
    let mut sum = vec![0.; NDIM];
    for _ in 0..LEN {
        for (i, &x) in seq.gen().iter().enumerate() {
            sum[i] += to_f64(x);
        }
    }
    for i in 0..NDIM {
        assert!(((sum[i] / (LEN as f64)) - 0.5).abs() < 1e-4);
    }
}

#[test]
fn test_raw_data() {
    let table = sparse_table();
    assert_eq!(get_raw_data(&table, 0), Ok((0, vec![].as_slice())));
    assert_eq!(get_raw_data(&table, 1), Ok((1, vec![1].as_slice())));
    assert_eq!(get_raw_data(&table, 2), Ok((1, vec![1, 0].as_slice())));
    assert_eq!(get_raw_data(&table, 3), Ok((2, vec![0, 0].as_slice())));
    assert_eq!(get_raw_data(&table, 4), Ok((1, vec![0, 1, 1].as_slice())));
    assert_eq!(get_raw_data(&table, 5), Ok((4, vec![1, 2, 6].as_slice())));
    assert_eq!(get_raw_data(&table, 6), Ok((2, vec![0, 2, 2, 8].as_slice())));
    assert_eq!(get_raw_data(&table, 7), Ok((4, vec![0, 2, 2, 2].as_slice())));
    assert_eq!(
        get_raw_data(&table, 100),
        Ok((4, vec![1, 0, 7, 2, 2, 18, 113, 111, 229].as_slice()))
    );
    assert_eq!(
        get_raw_data(&table, 1108),
        Ok((4091, vec![1, 0, 1, 13, 1, 1, 86, 195, 106, 401, 1640, 1603].as_slice()))
    );
    assert_eq!(
        get_raw_data(&table, 1109),
        Ok((4094, vec![0, 2, 7, 9, 0, 3, 105, 78, 301, 201, 693, 791].as_slice()))
    );
}

#[test]
#[should_panic]
fn test_raw_data_panic() {
    let table = sparse_table();
    get_raw_data(&table, 1110).unwrap();
}

#[test]
fn raw_data_beyond_the_table_is_an_invalid_dimension() {
    let table = sparse_table();
    assert_eq!(table.max_dim(), 1111);
    assert_eq!(get_raw_data(&table, 1110), Err(Error::InvalidDimension));
    assert_eq!(get_raw_data(&table, usize::MAX), Err(Error::InvalidDimension));
    assert!(get_raw_data(&table, 1109).is_ok());
}

#[test]
fn sobol_dimension_is_bounded_by_the_table() {
    let table = sparse_table();
    assert!(SobolSeq::new(1111, &table).is_ok());
    assert!(matches!(SobolSeq::new(1112, &table), Err(Error::InvalidDimension)));
    let small = small_table();
    assert_eq!(small.max_dim(), 20);
    assert!(SobolSeq::new(20, &small).is_ok());
    assert!(matches!(SobolSeq::new(21, &small), Err(Error::InvalidDimension)));
    let empty = DirectionTable::new(vec![0], vec![], vec![]).unwrap();
    assert_eq!(empty.max_dim(), 1);
    assert!(SobolSeq::new(1, &empty).is_ok());
    assert!(matches!(SobolSeq::new(2, &empty), Err(Error::InvalidDimension)));
    assert_eq!(get_dirnums(&empty, 1), Err(Error::InvalidDimension));
}

#[test]
fn table_is_checked() {
    // one start too few
    assert!(DirectionTable::new(vec![], vec![], vec![]).is_none());
    assert!(DirectionTable::new(vec![0], vec![1], vec![1]).is_none());
    // starts that go back
    assert!(DirectionTable::new(vec![1, 0], vec![1], vec![1]).is_none());
    // a row that runs past the seeds
    assert!(DirectionTable::new(vec![0, 2], vec![1], vec![1]).is_none());
    assert!(DirectionTable::new(vec![3], vec![], vec![1]).is_none());
    // a seed that does not fit: the first seed of a row has one bit
    assert!(DirectionTable::new(vec![0, 1], vec![1], vec![2]).is_none());
    assert!(DirectionTable::new(vec![0, 2], vec![1], vec![1, 4]).is_none());
    // seeds that just fit
    assert!(DirectionTable::new(vec![0, 2], vec![1], vec![1, 3]).is_some());
    // seeds beyond the first 47 of a row are not used and not checked
    let mut long = vec![0u32; 47];
    long.push(u32::MAX);
    assert!(DirectionTable::new(vec![0, 48], vec![1], long).is_some());
}

#[test]
fn direction_numbers_of_the_first_axis() {
    let d = get_dirnums(&small_table(), 0).unwrap();
    assert_eq!(d.len(), 48);
    for (i, &x) in d.iter().enumerate() {
        assert_eq!(x, 1u64 << (47 - i));
    }
}

#[test]
fn direction_numbers_from_seeds_and_recurrence() {
    let table = small_table();
    // axis 1: no seeds, degree one: each is the one before, folded once
    let d = get_dirnums(&table, 1).unwrap();
    assert_eq!(d[0], 1 << 47);
    assert_eq!(d[1], (1 << 47) ^ (1 << 46));
    assert_eq!(d[2], (1 << 47) ^ (1 << 45));
    for i in 1..48 {
        assert_eq!(d[i], d[i - 1] ^ (d[i - 1] >> 1));
    }
    // axis 3: coefficient word 1, seeds 1 and 0: numerators 1, 3, 1
    let d = get_dirnums(&table, 3).unwrap();
    assert_eq!(d[0], 1 << 47);
    assert_eq!(d[1], 3 << 46);
    assert_eq!(d[2], 1 << 45);
    assert_eq!(d[3], d[0] ^ (d[0] >> 3) ^ d[1]);
    assert_eq!(d[3], 5 << 44);
    for i in 3..48 {
        assert_eq!(d[i], d[i - 3] ^ (d[i - 3] >> 3) ^ d[i - 2]);
    }
    // axis 6: coefficient word 4, seeds 1, 2, 6: numerators 1, 3, 5, 13
    let d = get_dirnums(&table, 6).unwrap();
    assert_eq!(&d[..4], &[1 << 47, 3 << 46, 5 << 45, 13 << 44]);
    for i in 4..48 {
        assert_eq!(d[i], d[i - 4] ^ (d[i - 4] >> 4) ^ d[i - 1]);
    }
    // every direction number has its own lowest bit
    for axis in 0..20 {
        let d = get_dirnums(&table, axis).unwrap();
        for i in 0..48 {
            assert_eq!(d[i].trailing_zeros() as usize, 47 - i);
            assert!(d[i] < 1 << 48);
        }
    }
}

#[test]
fn direction_numbers_with_more_seeds_than_places() {
    let mut seeds = vec![0u32; 60];
    seeds[46] = 5;
    let table = DirectionTable::new(vec![0, 60], vec![3], seeds).unwrap();
    let d = get_dirnums(&table, 1).unwrap();
    assert_eq!(d.len(), 48);
    for i in 0..47 {
        assert_eq!(d[i], 1u64 << (47 - i));
    }
    assert_eq!(d[47], 11);
}

#[test]
fn sobol_exact_fractions() {
    let mut seq = SobolSeq::new(3, &small_table()).unwrap().with_buf();
    let half = Fraction { num: 1 << 47, den: MAX_N };
    assert_eq!(seq.gen(), &[half, half, half]);
    assert_eq!(
        seq.gen(),
        &[
            Fraction { num: 3 << 46, den: MAX_N },
            Fraction { num: 1 << 46, den: MAX_N },
            Fraction { num: 1 << 46, den: MAX_N }
        ]
    );
}

#[test]
fn sobol_first_axis_follows_the_gray_code() {
    let mut seq = SobolSeq::new(1, &small_table()).unwrap().with_buf();
    for index in 1u64..=4096 {
        let gray = index ^ (index >> 1);
        let mut expected: u64 = 0;
        for bit in 0..48 {
            if (gray >> bit) & 1 == 1 {
                expected ^= 1 << (47 - bit);
            }
        }
        assert_eq!(seq.gen()[0], Fraction { num: expected as u128, den: MAX_N });
    }
}

#[test]
fn sobol_points_fill_the_dyadic_grid() {
    // along every axis the first 2^m points and zero are the multiples of 2^-m
    let m = 10;
    let count = (1usize << m) - 1;
    let ndim = 20;
    let mut seq = SobolSeq::new(ndim, &small_table()).unwrap().with_buf();
    let mut seen = vec![vec![false; 1 << m]; ndim];
    for _ in 0..count {
        for (axis, x) in seq.gen().iter().enumerate() {
            assert_eq!(x.den, MAX_N);
            assert_eq!(x.num % (1 << (48 - m)), 0);
            let cell = (x.num >> (48 - m)) as usize;
            assert!(cell != 0);
            assert!(!seen[axis][cell]);
            seen[axis][cell] = true;
        }
    }
}

#[test]
fn sobol_blocks_of_points_are_stratified() {
    // 2^m points from a multiple of 2^m on lie in 2^m different intervals
    let ndim = 20;
    let mut seq = SobolSeq::new(ndim, &small_table()).unwrap().with_buf();
    let mut number: u64 = 0;
    for m in [1usize, 2, 3, 5, 8] {
        let size = 1u64 << m;
        // go on to the point before the next multiple of 2^m
        while (number + 1) % size != 0 {
            seq.gen();
            number += 1;
        }
        for _ in 0..3 {
            let mut seen = vec![vec![false; 1 << m]; ndim];
            for _ in 0..size {
                for (axis, x) in seq.gen().iter().enumerate() {
                    let cell = (x.num >> (48 - m)) as usize;
                    assert!(!seen[axis][cell]);
                    seen[axis][cell] = true;
                }
                number += 1;
            }
        }
    }
}

#[test]
fn sobol_dimensionality_and_unit_interval() {
    let table = small_table();
    for ndim in 1..=20usize {
        let mut seq = SobolSeq::new(ndim, &table).unwrap();
        assert_eq!(seq.ndim(), ndim);
        let mut out = vec![Fraction { num: 0, den: 1 }; ndim];
        for _ in 0..300 {
            seq.gen_fill(&mut out).unwrap();
            for x in &out {
                assert!(x.num < x.den);
            }
        }
    }
}

#[test]
fn sobol_with_no_axes() {
    let mut seq = SobolSeq::new(0, &small_table()).unwrap();
    assert_eq!(seq.ndim(), 0);
    let mut out: Vec<Fraction> = Vec::new();
    assert_eq!(seq.gen_fill(&mut out), Ok(()));
    assert_eq!(seq.with_buf().gen().len(), 0);
}

#[test]
fn sobol_checked_fill_refuses_short_buffer() {
    let table = small_table();
    let mut seq = SobolSeq::new(4, &table).unwrap();
    let mut out = vec![Fraction { num: 0, den: 1 }; 4];
    seq.gen_fill(&mut out).unwrap();
    let mut short = vec![Fraction { num: 7, den: 9 }; 3];
    assert_eq!(seq.gen_fill(&mut short), Err(Error::BufferTooSmall));
    assert_eq!(short, vec![Fraction { num: 7, den: 9 }; 3]);
    let mut empty: Vec<Fraction> = Vec::new();
    assert_eq!(seq.gen_fill(&mut empty), Err(Error::BufferTooSmall));
    // the generator did not move: it goes on with the second point
    seq.gen_fill(&mut out).unwrap();
    let mut fresh = SobolSeq::new(4, &table).unwrap();
    let mut expected = vec![Fraction { num: 0, den: 1 }; 4];
    fresh.gen_fill(&mut expected).unwrap();
    fresh.gen_fill(&mut expected).unwrap();
    assert_eq!(out, expected);
}

#[test]
fn sobol_fill_leaves_the_rest_of_a_longer_buffer() {
    let mut seq = SobolSeq::new(2, &small_table()).unwrap();
    let mut out = vec![Fraction { num: 7, den: 9 }; 3];
    seq.gen_fill(&mut out).unwrap();
    assert_eq!(out[0], Fraction { num: 1 << 47, den: MAX_N });
    assert_eq!(out[1], Fraction { num: 1 << 47, den: MAX_N });
    assert_eq!(out[2], Fraction { num: 7, den: 9 });
}

#[test]
fn sobol_clone_draws_the_same_points() {
    let mut seq = SobolSeq::new(9, &small_table()).unwrap().with_buf();
    for _ in 0..123 {
        seq.gen();
    }
    let mut copy = seq.clone();
    for _ in 0..500 {
        let a = seq.gen().to_vec();
        let b = copy.gen().to_vec();
        assert_eq!(a, b);
    }
}

#[test]
fn sobol_buffered_wrapper_forwards() {
    let table = small_table();
    let mut plain = SobolSeq::new(6, &table).unwrap();
    let mut wrapped = SobolSeq::new(6, &table).unwrap().with_buf();
    assert_eq!(wrapped.ndim(), 6);
    let mut out = vec![Fraction { num: 0, den: 1 }; 6];
    for step in 0..100 {
        plain.gen_fill(&mut out).unwrap();
        if step % 2 == 0 {
            assert_eq!(wrapped.gen(), out.as_slice());
        } else {
            let mut other = vec![Fraction { num: 0, den: 1 }; 6];
            wrapped.gen_fill_unchecked(&mut other);
            assert_eq!(other, out);
        }
    }
}
