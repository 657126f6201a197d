use qrng::utils::{primes, PrimeSeq};

fn take(source: &mut PrimeSeq, n: usize) -> Vec<u64> {
    let mut found = Vec::new();
    for _ in 0..n {
        found.push(source.next().unwrap());
    }
    found
}

#[test]
fn test_prime_seq() {
    assert_eq!(take(&mut primes(), 10), vec![2, 3, 5, 7, 11, 13, 17, 19, 23, 29]);
}

#[test]
fn prime_seq_new_starts_at_two() {
    let mut source = PrimeSeq::new();
    assert_eq!(source.next(), Some(2));
    assert_eq!(source.next(), Some(3));
    assert_eq!(source.next(), Some(5));
}

#[test]
fn prime_seq_goes_on_where_it_stopped() {
    let mut source = primes();
    let first = take(&mut source, 4);
    let second = take(&mut source, 4);
    assert_eq!(first, vec![2, 3, 5, 7]);
    assert_eq!(second, vec![11, 13, 17, 19]);
}

#[test]
fn prime_seq_known_indices() {
    let found = take(&mut primes(), 1000);
    assert_eq!(found[24], 97);
    assert_eq!(found[25], 101);
    assert_eq!(found[99], 541);
    assert_eq!(found[999], 7919);
}

#[test]
fn prime_seq_is_strictly_increasing_and_prime() {
    let found = take(&mut primes(), 300);
    for w in found.windows(2) {
        assert!(w[0] < w[1]);
    }
    for &p in &found {
        assert!((2..p).all(|d| p % d != 0));
    }
    // nothing is skipped: every prime up to the last one found is there
    let last = *found.last().unwrap();
    let expected: Vec<u64> = (2..=last).filter(|&n| (2..n).all(|d| n % d != 0)).collect();
    assert_eq!(found, expected);
}

#[test]
fn prime_seq_squares_of_primes_are_skipped() {
    let found = take(&mut primes(), 200);
    for q in [4u64, 9, 25, 49, 121, 169, 289, 361, 529, 841, 961] {
        assert!(!found.contains(&q));
    }
}
