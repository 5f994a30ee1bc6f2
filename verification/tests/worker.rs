use z_primitive_roots::divisor_lists::divisors_of_p_times_p_minus_1;
use z_primitive_roots::primes::nth_prime;
use z_primitive_roots::worker::{
    process_index, process_range, z_primitive_roots, RangeError, Record,
};

fn sorted(mut v: Vec<u64>) -> Vec<u64> {
    v.sort();
    v.dedup();
    v
}

#[test]
fn primes_by_index() {
    assert_eq!(nth_prime(0), None);
    assert_eq!(nth_prime(1), Some(2));
    assert_eq!(nth_prime(2), Some(3));
    assert_eq!(nth_prime(3), Some(5));
    assert_eq!(nth_prime(26), Some(101));
    assert_eq!(nth_prime(1000), Some(7919));
    assert_eq!(nth_prime(u64::MAX), None);
    assert_eq!(nth_prime(425_656_284_035_217_744), None);
}

#[test]
fn union_rule_gives_the_divisors_of_the_product() {
    for p in [5u64, 7, 11, 13, 29, 101, 103, 257, 65537] {
        let divs = divisors::get_divisors(p - 1);
        let built = divisors_of_p_times_p_minus_1(p, &divs);
        let canonical = divisors::get_divisors(p * (p - 1));
        assert_eq!(sorted(built), canonical);
    }
}

#[test]
fn union_rule_keeps_the_order_of_its_parts() {
    assert_eq!(divisors_of_p_times_p_minus_1(13, &vec![2, 3, 4, 6]), vec![
        2, 3, 4, 6, 13, 12, 26, 39, 52, 78
    ]);
    assert_eq!(divisors_of_p_times_p_minus_1(3, &vec![]), vec![3, 2]);
    assert_eq!(divisors_of_p_times_p_minus_1(1, &vec![7]), vec![7, 1, 0, 7]);
}

#[test]
fn z_primitive_roots_of_known_primes() {
    assert_eq!(z_primitive_roots(5), Ok(vec![]));
    assert_eq!(z_primitive_roots(7), Ok(vec![]));
    assert_eq!(z_primitive_roots(11), Ok(vec![]));
    assert_eq!(z_primitive_roots(29), Ok(vec![14]));
    assert_eq!(z_primitive_roots(37), Ok(vec![18]));
    assert_eq!(z_primitive_roots(43), Ok(vec![19]));
    assert_eq!(z_primitive_roots(71), Ok(vec![11]));
    assert_eq!(z_primitive_roots(103), Ok(vec![43]));
    assert_eq!(z_primitive_roots(109), Ok(vec![96]));
    assert_eq!(z_primitive_roots(113), Ok(vec![68]));
    assert_eq!(z_primitive_roots(131), Ok(vec![111]));
}

#[test]
fn z_primitive_roots_refuses_what_is_no_odd_prime_above_3() {
    assert_eq!(z_primitive_roots(2), Err(RangeError::InvalidInput));
    assert_eq!(z_primitive_roots(3), Err(RangeError::NoGenerator));
    assert_eq!(z_primitive_roots(4_294_967_296), Err(RangeError::InvalidInput));
}

#[test]
fn z_primitive_roots_is_repeatable() {
    for p in [5u64, 29, 37, 101, 103] {
        assert_eq!(z_primitive_roots(p), z_primitive_roots(p));
    }
}

#[test]
fn record_of_an_index() {
    assert_eq!(process_index(0), Err(RangeError::NoSuchPrime));
    assert_eq!(process_index(1), Err(RangeError::InvalidInput));
    assert_eq!(process_index(2), Err(RangeError::NoGenerator));
    assert_eq!(process_index(3), Ok(Record { p: 5, zprs: vec![] }));
    assert_eq!(process_index(10), Ok(Record { p: 29, zprs: vec![14] }));
    assert_eq!(process_index(u64::MAX), Err(RangeError::NoSuchPrime));
}

#[test]
fn records_of_a_range() {
    let out = process_range(3, 13);
    assert_eq!(out.failure, None);
    let primes: Vec<u64> = out.records.iter().map(|r| r.p).collect();
    assert_eq!(primes, vec![5, 7, 11, 13, 17, 19, 23, 29, 31, 37]);
    let counts: Vec<usize> = out.records.iter().map(|r| r.zprs.len()).collect();
    assert_eq!(counts, vec![0, 0, 0, 0, 0, 0, 0, 1, 0, 1]);
    assert_eq!(out.records[7], Record { p: 29, zprs: vec![14] });
    assert_eq!(out.records[9], Record { p: 37, zprs: vec![18] });
}

#[test]
fn range_from_the_first_prime_ends_at_once() {
    let out = process_range(1, 6);
    assert!(out.records.is_empty());
    assert_eq!(out.failure, Some(RangeError::InvalidInput));
    let out = process_range(2, 6);
    assert!(out.records.is_empty());
    assert_eq!(out.failure, Some(RangeError::NoGenerator));
}

#[test]
fn empty_and_reversed_ranges() {
    let out = process_range(5, 5);
    assert!(out.records.is_empty());
    assert_eq!(out.failure, None);
    let out = process_range(9, 4);
    assert!(out.records.is_empty());
    assert_eq!(out.failure, None);
}

#[test]
fn ranges_split_differently_give_the_same_records() {
    let whole = process_range(3, 15).records;
    let mut parts = process_range(3, 8).records;
    parts.extend(process_range(8, 15).records);
    assert_eq!(whole, parts);
    for (k, rec) in whole.iter().enumerate() {
        assert_eq!(process_index(3 + k as u64).as_ref(), Ok(rec));
    }
}

fn order_of(n: u64, modulus: u64) -> Option<u64> {
    let mut x = n % modulus;
    for e in 1..=modulus {
        if x == 1 {
            return Some(e);
        }
        x = (x as u128 * n as u128 % modulus as u128) as u64;
    }
    None
}

#[test]
fn divisor_lists_of_the_outside_crate() {
    assert_eq!(divisors::get_divisors(1u64), vec![]);
    assert_eq!(divisors::get_divisors(2u64), vec![2]);
    assert_eq!(divisors::get_divisors(3u64), vec![]);
    for n in 3..3000u64 {
        let expected: Vec<u64> = (2..n).filter(|d| n % d == 0).collect();
        assert_eq!(divisors::get_divisors(n), expected);
    }
    for n in [4_294_967_310u64, 4_294_967_296, 1 << 40, 600_851_475_143, 999_999_000_001] {
        let listed = divisors::get_divisors(n);
        for w in listed.windows(2) {
            assert!(w[0] < w[1]);
        }
        for d in &listed {
            assert!(1 < *d && *d < n && n % d == 0);
        }
        let small: Vec<u64> = (2..100_000u64).filter(|d| n % d == 0).collect();
        for d in small {
            assert!(listed.contains(&d));
            assert!(listed.contains(&(n / d)));
        }
    }
}

#[test]
fn primes_by_index_against_a_sieve() {
    let primes: Vec<u64> = (2..2000u64).filter(|n| (2..*n).all(|d| n % d != 0)).collect();
    for (k, p) in primes.iter().enumerate() {
        assert_eq!(nth_prime(k as u64 + 1), Some(*p));
    }
}

#[test]
fn z_primitive_roots_by_their_definition() {
    let primes: Vec<u64> = (5..140u64).filter(|n| (2..*n).all(|d| n % d != 0)).collect();
    for p in primes {
        let expected: Vec<u64> = (1..p)
            .filter(|n| order_of(*n, p) == Some(p - 1) && order_of(*n, p * p) != Some(p * (p - 1)))
            .collect();
        assert_eq!(sorted(z_primitive_roots(p).unwrap()), expected);
    }
}

#[test]
fn z_primitive_roots_are_no_more_than_the_primitive_roots() {
    for rec in process_range(3, 40).records {
        let roots = (1..rec.p).filter(|n| order_of(*n, rec.p) == Some(rec.p - 1)).count();
        assert!(rec.zprs.len() <= roots);
    }
}

#[test]
fn square_beyond_64_bits_is_too_large() {
    // the first prime above 2^32
    assert_eq!(z_primitive_roots(4_294_967_311), Err(RangeError::TooLarge));
    // an odd composite above 2^32 ends the same way
    assert_eq!(z_primitive_roots(4_294_967_297), Err(RangeError::TooLarge));
}
