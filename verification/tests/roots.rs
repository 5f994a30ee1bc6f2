use z_primitive_roots::arith::{gcd, is_quadratic_residue, mod_pow};
use z_primitive_roots::roots::{
    check_pr_mod_psquared, find_all_prs, find_first_pr, passes_order_test, powers_avoid_one,
    SearchError,
};

fn strict_divisors(n: u64) -> Vec<u64> {
    (2..n).filter(|d| n % d == 0).collect()
}

fn sorted(mut v: Vec<u64>) -> Vec<u64> {
    v.sort();
    v
}

#[test]
fn gcd_of_small_numbers() {
    assert_eq!(gcd(12, 18), 6);
    assert_eq!(gcd(18, 12), 6);
    assert_eq!(gcd(17, 5), 1);
    assert_eq!(gcd(0, 9), 9);
    assert_eq!(gcd(9, 0), 9);
    assert_eq!(gcd(0, 0), 0);
    assert_eq!(gcd(u64::MAX, u64::MAX - 1), 1);
}

#[test]
fn mod_pow_exact_values() {
    assert_eq!(mod_pow(2, 10, 1000), 24);
    assert_eq!(mod_pow(3, 0, 7), 1);
    assert_eq!(mod_pow(3, 0, 1), 0);
    assert_eq!(mod_pow(0, 0, 5), 1);
    assert_eq!(mod_pow(0, 3, 5), 0);
    assert_eq!(mod_pow(14, 28, 841), 1);
    assert_eq!(mod_pow(7, 4, 25), 1);
    assert_eq!(mod_pow(2, 4, 25), 16);
}

#[test]
fn mod_pow_with_a_modulus_of_full_width() {
    let m: u64 = 18_446_744_073_709_551_557;
    assert_eq!(mod_pow(2, m - 1, m), 1);
    assert_eq!(mod_pow(m - 1, 2, m), 1);
    assert_eq!(mod_pow(u64::MAX, 1, m), 58);
}

#[test]
fn quadratic_residues_modulo_7() {
    let squares: Vec<u64> = (0..7u64).filter(|n| is_quadratic_residue(*n, 7)).collect();
    assert_eq!(squares, vec![1, 2, 4]);
    assert!(!is_quadratic_residue(0, 7));
    assert!(!is_quadratic_residue(14, 7));
    assert!(is_quadratic_residue(9, 7));
}

#[test]
fn order_test_on_13() {
    let divs = strict_divisors(12);
    assert_eq!(divs, vec![2, 3, 4, 6]);
    let passing: Vec<u64> = (1..13u64).filter(|n| passes_order_test(*n, 13, &divs)).collect();
    assert_eq!(passing, vec![2, 6, 7, 11]);
    assert!(powers_avoid_one(2, &divs, 13));
    assert!(!powers_avoid_one(3, &divs, 13));
    assert!(powers_avoid_one(5, &vec![], 13));
}

#[test]
fn first_root_follows_the_search_order() {
    // 17 = 1 mod 8: 2, then 5.., then 3, 4
    assert_eq!(find_first_pr(17, &strict_divisors(16)), Ok(5));
    // 11 = 3 mod 8: descending from 9
    assert_eq!(find_first_pr(11, &strict_divisors(10)), Ok(8));
    // 13 = 5 mod 8: ascending from 4
    assert_eq!(find_first_pr(13, &strict_divisors(12)), Ok(6));
    // 5 = 5 mod 8: the order starts at 1, which never passes
    assert_eq!(find_first_pr(5, &strict_divisors(4)), Ok(2));
    // 7 = 7 mod 8: 2, then descending from 4
    assert_eq!(find_first_pr(7, &strict_divisors(6)), Ok(3));
    // 23 = 7 mod 8: 2 is a square, then descending from 20
    assert_eq!(find_first_pr(23, &strict_divisors(22)), Ok(20));
    // 41 = 1 mod 8
    assert_eq!(find_first_pr(41, &strict_divisors(40)), Ok(13));
}

#[test]
fn first_root_is_a_primitive_root() {
    for p in [5u64, 7, 11, 13, 17, 19, 23, 29, 31, 37, 41, 43, 47, 101, 103, 257, 65537] {
        let divs = strict_divisors(p - 1);
        let n = find_first_pr(p, &divs).unwrap();
        assert!(2 <= n && n < p - 1);
        assert_eq!(mod_pow(n, p - 1, p), 1);
        for e in 1..p - 1 {
            if (p - 1) % e == 0 {
                assert_ne!(mod_pow(n, e, p), 1);
            }
        }
    }
}

#[test]
fn even_modulus_is_invalid_input() {
    assert_eq!(find_first_pr(2, &vec![]), Err(SearchError::InvalidInput));
    assert_eq!(find_first_pr(0, &vec![]), Err(SearchError::InvalidInput));
    assert_eq!(find_first_pr(10, &strict_divisors(9)), Err(SearchError::InvalidInput));
    assert_eq!(find_all_prs(2, &vec![]), Err(SearchError::InvalidInput));
    assert_eq!(find_all_prs(64, &vec![]), Err(SearchError::InvalidInput));
}

#[test]
fn smallest_odd_prime_has_no_candidate() {
    assert_eq!(find_first_pr(3, &vec![]), Err(SearchError::NoGenerator));
    assert_eq!(find_first_pr(3, &vec![2]), Err(SearchError::NoGenerator));
    assert_eq!(find_all_prs(3, &vec![]), Err(SearchError::NoGenerator));
}

#[test]
fn wrong_divisors_leave_no_generator() {
    // with 12 itself among the exponents every candidate is taken to 1
    assert_eq!(find_first_pr(13, &vec![2, 3, 4, 6, 12]), Err(SearchError::NoGenerator));
}

#[test]
fn all_roots_of_small_primes() {
    assert_eq!(find_all_prs(5, &strict_divisors(4)), Ok(vec![2, 3]));
    assert_eq!(find_all_prs(7, &strict_divisors(6)), Ok(vec![3, 5]));
    assert_eq!(find_all_prs(11, &strict_divisors(10)), Ok(vec![8, 6, 2, 7]));
    assert_eq!(find_all_prs(13, &strict_divisors(12)), Ok(vec![6, 2, 7, 11]));
    assert_eq!(sorted(find_all_prs(13, &strict_divisors(12)).unwrap()), vec![2, 6, 7, 11]);
    assert_eq!(sorted(find_all_prs(11, &strict_divisors(10)).unwrap()), vec![2, 6, 7, 8]);
}

#[test]
fn all_roots_count_is_the_totient() {
    for p in [5u64, 7, 11, 13, 17, 19, 23, 29, 31, 37, 41, 43, 47, 101, 103, 257] {
        let roots = find_all_prs(p, &strict_divisors(p - 1)).unwrap();
        let totient = (1..p).filter(|k| gcd(*k, p - 1) == 1).count();
        assert_eq!(roots.len(), totient);
        let distinct = sorted(roots.clone());
        for w in distinct.windows(2) {
            assert!(w[0] < w[1]);
        }
        for n in roots {
            assert!(2 <= n && n < p - 1);
            assert!(passes_order_test(n, p, &strict_divisors(p - 1)));
        }
    }
}

#[test]
fn lift_to_the_square() {
    let mut divs = strict_divisors(29 * 28);
    assert!(!check_pr_mod_psquared(29, 14, &divs));
    assert!(check_pr_mod_psquared(29, 2, &divs));
    assert!(check_pr_mod_psquared(29, 10, &divs));
    divs = strict_divisors(5 * 4);
    assert!(check_pr_mod_psquared(5, 2, &divs));
    assert!(check_pr_mod_psquared(5, 3, &divs));
    assert!(!check_pr_mod_psquared(5, 7, &divs));
    assert!(check_pr_mod_psquared(5, 7, &vec![]));
}

fn order_of(n: u64, modulus: u64) -> Option<u64> {
    let mut x = n % modulus;
    for e in 1..=modulus {
        if x == 1 {
            return Some(e);
        }
        x = (x as u128 * n as u128 % modulus as u128) as u64;
    }
    None
}

#[test]
fn quadratic_residues_are_the_nonzero_squares() {
    for p in [3u64, 5, 7, 11, 13, 17, 19, 23, 29, 31, 37, 41, 43, 47, 97, 101] {
        let mut squares: Vec<u64> = (1..p).map(|x| x * x % p).collect();
        squares.sort();
        squares.dedup();
        let passing: Vec<u64> = (0..p).filter(|n| is_quadratic_residue(*n, p)).collect();
        assert_eq!(passing, squares);
        assert_eq!(passing.len() as u64, (p - 1) / 2);
    }
}

#[test]
fn all_roots_are_the_elements_of_full_order() {
    for p in [5u64, 7, 11, 13, 17, 19, 23, 29, 31, 37, 41, 43, 47, 53, 59, 61, 97, 101, 103, 127] {
        let expected: Vec<u64> = (1..p).filter(|n| order_of(*n, p) == Some(p - 1)).collect();
        let found = sorted(find_all_prs(p, &strict_divisors(p - 1)).unwrap());
        assert_eq!(found, expected);
    }
}

#[test]
fn search_succeeds_for_primes_above_3() {
    let primes: Vec<u64> = (5..2000u64).filter(|n| (2..*n).all(|d| n % d != 0)).collect();
    for p in primes {
        let n = find_first_pr(p, &strict_divisors(p - 1)).unwrap();
        assert_eq!(order_of(n, p), Some(p - 1));
    }
}

#[test]
fn search_succeeds_with_any_exponents_in_range() {
    // fewer exponents than the divisors: the search still ends with a candidate
    assert_eq!(find_first_pr(13, &vec![]), Ok(5));
    assert_eq!(find_first_pr(13, &vec![5, 7, 11]), Ok(5));
    assert_eq!(find_first_pr(17, &vec![2]), Ok(5));
    assert_eq!(find_first_pr(41, &vec![]), Ok(13));
    // 43 = 3 mod 8, descending from 41: 41 and 40 are squares, 39 is none
    assert_eq!(find_first_pr(43, &vec![]), Ok(39));
    assert_eq!(find_first_pr(43, &strict_divisors(42)), Ok(34));
}

#[test]
fn lift_test_is_the_order_modulo_the_square() {
    for p in [5u64, 7, 11, 13, 29, 37, 43] {
        let divs = strict_divisors(p * (p - 1));
        for n in find_all_prs(p, &strict_divisors(p - 1)).unwrap() {
            let lifts = order_of(n, p * p) == Some(p * (p - 1));
            assert_eq!(check_pr_mod_psquared(p, n, &divs), lifts);
        }
    }
}

#[test]
fn search_on_a_modulus_of_one() {
    // the order of 1 holds 2 alone, and nothing is taken to 1 modulo 1
    assert_eq!(find_first_pr(1, &vec![]), Ok(2));
    assert_eq!(find_all_prs(1, &vec![]), Ok(vec![]));
}

#[test]
fn search_on_odd_composites_follows_the_order_test() {
    // 9 = 1 mod 8: 2, then 3.., then nothing; 2 has order 6 modulo 9
    assert_eq!(find_first_pr(9, &strict_divisors(8)), Ok(2));
    // 15 = 7 mod 8: 2, then descending from 12; 4 takes 2 to 1, and not 12
    assert_eq!(find_first_pr(15, &vec![4]), Ok(12));
    assert_eq!(find_first_pr(15, &vec![14]), Ok(2));
}
