use qrng::utils::primes;
use qrng::{Buffered, Error, Fraction, HaltonSeq, QRng};

const TOL: f64 = 1e-15;

fn to_f64(x: Fraction) -> f64 {
    (x.num as f64) / (x.den as f64)
}

fn nth_prime(n: usize) -> u64 {
    let mut source = primes();
    for _ in 0..n {
        source.next().unwrap();
    }
    source.next().unwrap()
}

#[test]
fn test_halton_seq_mod2() {
    let halton2 = vec![
        0.50000, // first cycle (zero excluded)
        0.25000, 0.75000, // second cycle
        0.12500, 0.62500, 0.37500, 0.87500, // third cycle
        // fourth cycle
        0.06250, 0.56250, 0.31250, 0.81250, 0.18750, 0.68750, 0.43750, 0.93750,
        // fifth cycle
        0.03125, 0.53125, 0.28125, 0.78125, 0.15625, 0.65625, 0.40625, 0.90625, 0.09375,
        0.59375, 0.34375, 0.84375, 0.21875, 0.71875, 0.46875, 0.96875,
    ];
    let mut seq = HaltonSeq::new(1).unwrap().with_buf();
    for &x in halton2.iter() {
        assert!((x - to_f64(seq.gen()[0])).abs() < TOL);
    }
}

#[test]
fn test_halton_seq_mod3() {
    let halton3 = vec![
        // first cycle (zero excluded)
        1. / 3.,
        2. / 3.,
        // second cycle
        1. / 9.,
        4. / 9.,
        7. / 9.,
        2. / 9.,
        5. / 9.,
        8. / 9.,
        // third cycle
        1. / 27.,
        10. / 27.,
        19. / 27.,
        4. / 27.,
        13. / 27.,
        22. / 27.,
        7. / 27.,
        16. / 27.,
        25. / 27.,
        2. / 27.,
        11. / 27.,
        20. / 27.,
        5. / 27.,
        14. / 27.,
        23. / 27.,
        8. / 27.,
        17. / 27.,
        26. / 27.,
    ];
    let mut seq = HaltonSeq::new(2).unwrap().with_buf();
    for &x in halton3.iter() {
        assert!((x - to_f64(seq.gen()[1])).abs() < TOL);
    }
}

#[test]
fn test_halton_seq_mean() {
    const MAX_DIM: usize = 7;
    for ndim in 1..=MAX_DIM {
        let p = nth_prime(ndim - 1);
        let (mut sum, mut count) = (0., 0);
        let mut seq = HaltonSeq::new(ndim).unwrap().with_buf();
        let mut cycle_len = p - 1; // initial cycle length
        for _ in 0..4 {
            // run 4 full cycles for the selected dimension
            for _ in 0..cycle_len {
                sum += to_f64(seq.gen()[ndim - 1]);
                count += 1;
            }
            cycle_len *= p; // cycle length is (p - 1) * p^n
        }
        let mean = sum / (count as f64);
        assert!((mean - 0.5).abs() < TOL);
    }
}

#[test]
fn halton_mean_over_full_cycles_is_exactly_one_half() {
    for ndim in 1..=7usize {
        let p = nth_prime(ndim - 1) as u128;
        let scale = p * p * p * p;
        let mut seq = HaltonSeq::new(ndim).unwrap().with_buf();
        let mut sum: u128 = 0;
        let count = scale - 1;
        for _ in 0..count {
            let x = seq.gen()[ndim - 1];
            assert_eq!(scale % x.den, 0);
            sum += x.num * (scale / x.den);
        }
        // sum / scale / count == 1 / 2
        assert_eq!(2 * sum, count * scale);
    }
}

#[test]
fn halton_mean_over_each_cycle_is_exactly_one_half() {
    // the cycle with number n holds the indices with n + 1 digits
    for ndim in 1..=7usize {
        let p = nth_prime(ndim - 1) as u128;
        let mut seq = HaltonSeq::new(ndim).unwrap().with_buf();
        let mut start: u128 = 1;
        for _ in 0..4 {
            let den = start * p;
            let len = den - start;
            let mut sum: u128 = 0;
            for _ in 0..len {
                let x = seq.gen()[ndim - 1];
                assert_eq!(x.den, den);
                sum += x.num;
            }
            assert_eq!(2 * sum, len * den);
            start = den;
        }
    }
}

#[test]
fn halton_exact_fractions_base_2() {
    let expected: [(u128, u128); 8] =
        [(1, 2), (1, 4), (3, 4), (1, 8), (5, 8), (3, 8), (7, 8), (1, 16)];
    let mut seq = HaltonSeq::new(1).unwrap().with_buf();
    for &(num, den) in expected.iter() {
        assert_eq!(seq.gen()[0], Fraction { num, den });
    }
}

#[test]
fn halton_exact_fractions_base_5() {
    let expected: [(u128, u128); 10] = [
        (1, 5),
        (2, 5),
        (3, 5),
        (4, 5),
        (1, 25),
        (6, 25),
        (11, 25),
        (16, 25),
        (21, 25),
        (2, 25),
    ];
    let mut seq = HaltonSeq::new(3).unwrap().with_buf();
    for &(num, den) in expected.iter() {
        assert_eq!(seq.gen()[2], Fraction { num, den });
    }
}

fn radical_inverse(base: u128, mut n: u128) -> Fraction {
    let (mut num, mut den) = (0u128, 1u128);
    while n > 0 {
        num = num * base + n % base;
        den *= base;
        n /= base;
    }
    Fraction { num, den }
}

#[test]
fn halton_agrees_with_digit_reversal() {
    let ndim = 12;
    let bases: Vec<u128> = {
        let mut source = primes();
        (0..ndim).map(|_| source.next().unwrap() as u128).collect()
    };
    let mut seq = HaltonSeq::new(ndim).unwrap();
    let mut out = vec![Fraction { num: 0, den: 1 }; ndim];
    for index in 1..=5000u128 {
        seq.gen_fill(&mut out).unwrap();
        for axis in 0..ndim {
            assert_eq!(out[axis], radical_inverse(bases[axis], index));
        }
    }
}

#[test]
fn halton_dimensionality_and_unit_interval() {
    for ndim in 1..=16usize {
        let mut seq = HaltonSeq::new(ndim).unwrap();
        assert_eq!(seq.ndim(), ndim);
        let mut out = vec![Fraction { num: 0, den: 1 }; ndim];
        for _ in 0..200 {
            seq.gen_fill(&mut out).unwrap();
            for x in &out {
                assert!(x.num < x.den);
                let f = to_f64(*x);
                assert!((0.0..1.0).contains(&f));
            }
        }
    }
}

#[test]
fn halton_with_no_axes() {
    let mut seq = HaltonSeq::new(0).unwrap();
    assert_eq!(seq.ndim(), 0);
    let mut out: Vec<Fraction> = Vec::new();
    assert_eq!(seq.gen_fill(&mut out), Ok(()));
    assert!(out.is_empty());
    let mut wrapped = seq.with_buf();
    assert_eq!(wrapped.gen().len(), 0);
}

#[test]
fn halton_checked_fill_refuses_short_buffer() {
    let mut seq = HaltonSeq::new(3).unwrap();
    let mut short = vec![Fraction { num: 7, den: 9 }; 2];
    assert_eq!(seq.gen_fill(&mut short), Err(Error::BufferTooSmall));
    // nothing was written
    assert_eq!(short, vec![Fraction { num: 7, den: 9 }; 2]);
    // and the generator did not move: the next point is the first one
    let mut out = vec![Fraction { num: 0, den: 1 }; 3];
    assert_eq!(seq.gen_fill(&mut out), Ok(()));
    assert_eq!(
        out,
        vec![
            Fraction { num: 1, den: 2 },
            Fraction { num: 1, den: 3 },
            Fraction { num: 1, den: 5 }
        ]
    );
}

#[test]
fn halton_fill_leaves_the_rest_of_a_longer_buffer() {
    let mut seq = HaltonSeq::new(2).unwrap();
    let mut out = vec![Fraction { num: 7, den: 9 }; 4];
    seq.gen_fill(&mut out).unwrap();
    assert_eq!(out[0], Fraction { num: 1, den: 2 });
    assert_eq!(out[1], Fraction { num: 1, den: 3 });
    assert_eq!(out[2], Fraction { num: 7, den: 9 });
    assert_eq!(out[3], Fraction { num: 7, den: 9 });
}

#[test]
fn halton_clone_draws_the_same_points() {
    let mut seq = HaltonSeq::new(5).unwrap().with_buf();
    for _ in 0..37 {
        seq.gen();
    }
    let mut copy = seq.clone();
    for _ in 0..500 {
        let a = seq.gen().to_vec();
        let b = copy.gen().to_vec();
        assert_eq!(a, b);
    }
}

#[test]
fn halton_clone_is_independent() {
    let mut seq = HaltonSeq::new(2).unwrap();
    let mut copy = seq.clone();
    let mut a = vec![Fraction { num: 0, den: 1 }; 2];
    let mut b = vec![Fraction { num: 0, den: 1 }; 2];
    for _ in 0..10 {
        seq.gen_fill(&mut a).unwrap();
    }
    copy.gen_fill(&mut b).unwrap();
    assert_eq!(b, vec![Fraction { num: 1, den: 2 }, Fraction { num: 1, den: 3 }]);
}

#[test]
fn halton_buffered_wrapper_forwards() {
    let mut plain = HaltonSeq::new(4).unwrap();
    let mut wrapped = HaltonSeq::new(4).unwrap().with_buf();
    assert_eq!(wrapped.ndim(), 4);
    let mut out = vec![Fraction { num: 0, den: 1 }; 4];
    for step in 0..100 {
        plain.gen_fill(&mut out).unwrap();
        if step % 2 == 0 {
            assert_eq!(wrapped.gen(), out.as_slice());
        } else {
            let mut other = vec![Fraction { num: 0, den: 1 }; 4];
            wrapped.gen_fill(&mut other).unwrap();
            assert_eq!(other, out);
        }
    }
}
