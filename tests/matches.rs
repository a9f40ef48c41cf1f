use divisor_pairs::block_sieve::{apply_multiplier, multiply_by_exponent_blocks, the_faster_one};
use divisor_pairs::naive::{count_factors, the_naive_one};
use divisor_pairs::sieve::{find_exponent, multiply_by_exponents, the_fast_one};

fn all_three(k: usize) -> (usize, usize, usize) {
    (the_naive_one(k), the_fast_one(k), the_faster_one(k))
}

#[test]
fn agree_on_every_bound_up_to_a_thousand() {
    for k in 0..=1000 {
        let (a, b, c) = all_three(k);
        assert_eq!(a, b, "naive and division sieve differ at {}", k);
        assert_eq!(b, c, "division sieve and block sieve differ at {}", k);
    }
}

#[test]
fn agree_at_ten_thousand() {
    assert_eq!(all_three(10_000), (1119, 1119, 1119));
}

#[test]
fn sieves_agree_at_a_hundred_thousand() {
    assert_eq!(the_fast_one(100_000), 10585);
    assert_eq!(the_faster_one(100_000), 10585);
}

#[test]
fn naive_at_a_hundred_thousand() {
    assert_eq!(the_naive_one(100_000), 10585);
}

#[test]
fn zero_bound_counts_nothing() {
    assert_eq!(all_three(0), (0, 0, 0));
}

#[test]
fn bound_one_counts_nothing() {
    // d(1) = 1 and d(2) = 2
    assert_eq!(all_three(1), (0, 0, 0));
}

#[test]
fn known_counts() {
    // d(m) == d(m + 1) first holds at m = 2, 14, 21, 26, 33, 34, 38, 44, 57
    let cases: [(usize, usize); 9] = [
        (2, 1),
        (13, 1),
        (14, 2),
        (20, 2),
        (21, 3),
        (34, 6),
        (57, 9),
        (100, 15),
        (1000, 118),
    ];
    for (k, expected) in cases {
        assert_eq!(all_three(k), (expected, expected, expected), "bound {}", k);
    }
}

#[test]
fn count_never_exceeds_bound() {
    for k in 1..=2000 {
        assert!(the_faster_one(k) <= k);
        assert!(the_fast_one(k) <= k);
    }
    for k in 1..=300 {
        assert!(the_naive_one(k) <= k);
    }
}

#[test]
fn repeated_calls_give_the_same_count() {
    for k in [0usize, 1, 57, 5000] {
        assert_eq!(the_naive_one(k), the_naive_one(k));
        assert_eq!(the_fast_one(k), the_fast_one(k));
        assert_eq!(the_faster_one(k), the_faster_one(k));
    }
}

#[test]
fn divisor_counts_of_small_numbers() {
    let expected: [usize; 11] = [2, 2, 3, 2, 4, 2, 4, 3, 4, 2, 6];
    for (offset, d) in expected.iter().enumerate() {
        assert_eq!(count_factors(offset + 2), *d);
    }
    assert_eq!(count_factors(36), 9);
    assert_eq!(count_factors(97), 2);
    assert_eq!(count_factors(720), 30);
}

#[test]
fn exponents_by_division() {
    assert_eq!(find_exponent(1, 2), 0);
    assert_eq!(find_exponent(7, 2), 0);
    assert_eq!(find_exponent(8, 2), 3);
    assert_eq!(find_exponent(24, 2), 3);
    assert_eq!(find_exponent(81, 3), 4);
    assert_eq!(find_exponent(162, 3), 4);
    assert_eq!(find_exponent(1 << 40, 2), 40);
}

fn brute_divisor_count(n: usize) -> usize {
    (1..=n).filter(|d| n % d == 0).count()
}

fn sieved_table(k: usize, blocks: bool) -> Vec<usize> {
    let mut factors = vec![1usize; k + 1];
    for n in 2..=k {
        if factors[n] == 1 {
            if blocks {
                multiply_by_exponent_blocks(&mut factors, n);
            } else {
                multiply_by_exponents(&mut factors, n);
            }
        }
    }
    factors
}

#[test]
fn sieved_counts_match_trial_division() {
    let by_division = sieved_table(10_000, false);
    let by_blocks = sieved_table(10_000, true);
    assert_eq!(by_division[1], 1);
    assert_eq!(by_blocks[1], 1);
    for n in 2..=10_000 {
        let d = count_factors(n);
        assert_eq!(by_division[n], d, "division sieve at {}", n);
        assert_eq!(by_blocks[n], d, "block sieve at {}", n);
    }
    for n in 1..=500 {
        assert_eq!(by_blocks[n], brute_divisor_count(n));
    }
}

#[test]
fn one_prime_pass_multiplies_by_exponent_plus_one() {
    // powers of 3 up to 81, in blocks
    let mut factors = vec![1usize; 82];
    multiply_by_exponent_blocks(&mut factors, 3);
    let expected_at: [(usize, usize); 8] =
        [(1, 1), (2, 1), (3, 2), (6, 2), (9, 3), (18, 3), (27, 4), (81, 5)];
    for (x, e) in expected_at {
        assert_eq!(factors[x], e, "index {}", x);
    }
    let mut by_division = vec![1usize; 82];
    multiply_by_exponents(&mut by_division, 3);
    assert_eq!(factors, by_division);
}

#[test]
fn pass_with_prime_beyond_table_changes_nothing() {
    let mut factors = vec![5usize; 4];
    multiply_by_exponent_blocks(&mut factors, 7);
    assert_eq!(factors, vec![5, 5, 5, 5]);
    multiply_by_exponents(&mut factors, 7);
    assert_eq!(factors, vec![5, 5, 5, 5]);
}

#[test]
fn block_update_touches_only_its_stride() {
    let mut factors = vec![1usize; 12];
    apply_multiplier(&mut factors, 2, 9, 3, 7);
    assert_eq!(factors, vec![1, 1, 7, 1, 1, 7, 1, 1, 7, 1, 1, 1]);
    apply_multiplier(&mut factors, 4, 4, 1, 3);
    assert_eq!(factors, vec![1, 1, 7, 1, 1, 7, 1, 1, 7, 1, 1, 1]);
}
