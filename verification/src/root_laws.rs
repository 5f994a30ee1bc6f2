//! What the search, the derivation and the lift test mean for a prime with
//! the true divisors: the laws that tie the functions of this library to
//! multiplicative orders.
use crate::arith::{
    euler_criterion, gcd_nat, is_nonzero_square, lemma_divides_remainder,
    lemma_gcd_nat_is_greatest, pow_mod,
};
use crate::euclid::{lemma_divisor_bound, lemma_mod_zero_is_multiple};
use crate::existence::{lemma_generator_reaches, lemma_primitive_root_exists};
use crate::divisor_lists::{
    extended_divisors, is_strict_divisor, lemma_divisors_below, lemma_union_rule,
    listed_divisors,
};
use crate::fermat::{lemma_euler_square, lemma_fermat};
use crate::orders::{
    is_primitive_root, is_primitive_root_of_square, lemma_coprime_power_keeps_order,
    lemma_order_divides, lemma_order_excludes_trivial, lemma_order_from_divisors,
    lemma_pow_mod_add, lemma_pow_mod_first, lemma_pow_mod_mul, lemma_pow_mod_of_one,
    lemma_pow_mod_of_zero, lemma_powers_differ,
};
use crate::primes::is_prime;
use crate::roots::{
    avoids_one, coprime_exponents, first_generator, generator_powers,
    is_generator_candidate, lemma_first_candidate, lemma_one_is_no_candidate,
    lemma_search_order_range, search_order, totient,
};
use crate::worker::{fails_to_lift, is_z_root_list, z_roots_of, RangeError};
use vstd::arithmetic::div_mod::{
    lemma_fundamental_div_mod, lemma_mul_mod_noop_general, lemma_small_mod,
};
use vstd::arithmetic::power::{
    lemma_pow_mod_noop, lemma_pow_multiplies, lemma_square_is_pow2, pow,
};
use vstd::prelude::*;

verus! {

/// `divs` holds every divisor of `n` strictly between 1 and `n`.
pub open spec fn covers_strict_divisors(divs: Seq<nat>, n: nat) -> bool {
    forall|d: nat| is_strict_divisor(d, n) ==> #[trigger] divs.contains(d)
}

/// `divs` holds the divisors of `n` strictly between 1 and `n`, and
/// nothing else.
pub open spec fn lists_strict_divisors(divs: Seq<nat>, n: nat) -> bool {
    forall|d: nat| #[trigger] divs.contains(d) <==> is_strict_divisor(d, n)
}

/// What is listed for a number holds every divisor strictly between 1 and
/// the number; for a number other than 2 it holds nothing else.
pub proof fn lemma_listed_divisors(n: nat)
    ensures
        covers_strict_divisors(listed_divisors(n), n),
        n != 2 ==> lists_strict_divisors(listed_divisors(n), n),
{
    lemma_divisors_below(n, n);
}

/// The search order of 3 is empty, so the search for 3 finds nothing.
pub proof fn lemma_no_generator_for_3(divs: Seq<nat>)
    ensures
        first_generator(3, divs) is None,
{
    assert(search_order(3).len() == 0);
}

/// What the search returns for an odd prime, given at least the divisors
/// of `p - 1` strictly between 1 and `p - 1`, is a primitive root: it lies
/// in `[2, p - 1)`, no divisor of `p - 1` below `p - 1` takes it to 1, and
/// `p - 1` does, so that `p - 1` is its order.
pub proof fn lemma_first_generator_is_primitive_root(p: nat, divs: Seq<nat>, n: nat)
    requires
        is_prime(p),
        p % 2 == 1,
        covers_strict_divisors(divs, (p - 1) as nat),
        first_generator(p, divs) == Some(n),
    ensures
        2 <= n < p - 1,
        forall|d: nat| 0 < d < p - 1 && (p - 1) % (d as int) == 0 ==> #[trigger] pow_mod(n, d, p) != 1,
        pow_mod(n, (p - 1) as nat, p) == 1,
        is_primitive_root(n, p),
{
    let order = search_order(p);
    let e = (p - 1) as nat;
    lemma_first_candidate(order, p, divs);
    lemma_search_order_range(p);
    lemma_one_is_no_candidate(p, divs);
    assert(is_generator_candidate(n, p, divs));
    assert(2 <= n < p - 1);
    lemma_small_mod(n, p);
    lemma_fermat(p, n);
    assert forall|d: nat| 0 < d < e && e % d == 0 implies #[trigger] pow_mod(n, d, p) != 1 by {
        if d == 1 {
            lemma_pow_mod_first(n, p);
        } else {
            assert(is_strict_divisor(d, e));
            assert(divs.contains(d));
            let j = choose|j: int| 0 <= j < divs.len() && divs[j] == d;
            assert(pow_mod(n, divs[j], p) != 1);
        }
    }
    lemma_order_from_divisors(n, e, p);
}

/// The members of `coprime_exponents(n, bound)` lie in `[1, bound)`, are
/// coprime to `n`, and ascend strictly.
pub proof fn lemma_coprime_exponents(n: nat, bound: nat)
    ensures
        forall|i: int|
            0 <= i < coprime_exponents(n, bound).len() ==> 1 <= #[trigger] coprime_exponents(
                n,
                bound,
            )[i] < bound && gcd_nat(coprime_exponents(n, bound)[i], n) == 1,
        forall|i: int, j: int|
            0 <= i < j < coprime_exponents(n, bound).len() ==> coprime_exponents(n, bound)[i]
                < coprime_exponents(n, bound)[j],
    decreases bound,
{
    let s = coprime_exponents(n, bound);
    if bound > 1 {
        let k = (bound - 1) as nat;
        let before = coprime_exponents(n, k);
        lemma_coprime_exponents(n, k);
        assert forall|i: int| 0 <= i < s.len() implies 1 <= #[trigger] s[i] < bound && gcd_nat(
            s[i],
            n,
        ) == 1 by {
            if i < before.len() {
                assert(s[i] == before[i]);
            }
        }
        assert forall|i: int, j: int| 0 <= i < j < s.len() implies s[i] < s[j] by {
            assert(s[i] == before[i]);
            if j < before.len() {
                assert(s[j] == before[j]);
            }
        }
    }
}

/// The powers of a primitive root `g` of `p` with exponents coprime to
/// `p - 1`, for `p` above 3: there are as many as the totient of `p - 1`
/// says, they differ from each other, they lie in `[2, p - 1)`, and each
/// is a primitive root of `p`.
pub proof fn lemma_generator_powers(p: nat, g: nat)
    requires
        p > 3,
        is_primitive_root(g, p),
    ensures
        generator_powers(g, p).len() == totient((p - 1) as nat),
        generator_powers(g, p).no_duplicates(),
        forall|i: int|
            0 <= i < generator_powers(g, p).len() ==> 2 <= #[trigger] generator_powers(g, p)[i]
                < p - 1 && is_primitive_root(generator_powers(g, p)[i], p),
{
    let n = (p - 1) as nat;
    let ks = coprime_exponents(n, p);
    let v = generator_powers(g, p);
    lemma_coprime_exponents(n, p);
    assert forall|i: int| 0 <= i < v.len() implies 2 <= #[trigger] v[i] < p - 1
        && is_primitive_root(v[i], p) by {
        assert(v[i] == pow_mod(g, ks[i], p));
        lemma_coprime_power_keeps_order(g, n, p, ks[i]);
        lemma_order_excludes_trivial(v[i], n, p);
    }
    assert forall|i: int, j: int| 0 <= i < v.len() && 0 <= j < v.len() && i != j implies v[i]
        != v[j] by {
        assert(v[i] == pow_mod(g, ks[i], p));
        assert(v[j] == pow_mod(g, ks[j], p));
        if i < j {
            lemma_powers_differ(g, n, p, ks[i], ks[j]);
        } else {
            lemma_powers_differ(g, n, p, ks[j], ks[i]);
        }
    }
}

/// What `find_all_prs` yields for an odd prime, given at least the divisors
/// of `p - 1` strictly between 1 and `p - 1`: as many values as the totient
/// of `p - 1` says, all different, all in `[2, p - 1)`, each a primitive
/// root of `p`.
pub proof fn lemma_all_prs_are_primitive_roots(p: nat, divs: Seq<nat>, g: nat)
    requires
        is_prime(p),
        p % 2 == 1,
        covers_strict_divisors(divs, (p - 1) as nat),
        first_generator(p, divs) == Some(g),
    ensures
        generator_powers(g, p).len() == totient((p - 1) as nat),
        generator_powers(g, p).no_duplicates(),
        forall|i: int|
            0 <= i < generator_powers(g, p).len() ==> 2 <= #[trigger] generator_powers(g, p)[i]
                < p - 1 && is_primitive_root(generator_powers(g, p)[i], p),
{
    lemma_first_generator_is_primitive_root(p, divs, g);
    lemma_no_generator_for_3(divs);
    lemma_generator_powers(p, g);
}

/// A multiple of `p` is no primitive root of `p`.
pub proof fn lemma_primitive_root_is_unit(n: nat, p: nat)
    requires
        p > 2,
        is_primitive_root(n, p),
    ensures
        n % p != 0,
        n % p != 1,
{
    let e = (p - 1) as nat;
    if n % p == 0 {
        lemma_pow_mod_noop(n as int, e, p as int);
        lemma_pow_mod_of_zero(e, p);
    }
    if n % p == 1 {
        lemma_pow_mod_first(n, p);
        assert(pow_mod(n, 1, p) != 1);
    }
}

/// The lift test: for a primitive root `n` of an odd prime `p`, and the
/// divisors of `p * (p - 1)` strictly between 1 and `p * (p - 1)`, no
/// exponent of the list takes `n` to 1 modulo `p * p` exactly if `n` is a
/// primitive root modulo `p * p`.
pub proof fn lemma_lift_test(p: nat, n: nat, divs: Seq<nat>)
    requires
        is_prime(p),
        p > 2,
        is_primitive_root(n, p),
        lists_strict_divisors(divs, (p * (p - 1)) as nat),
    ensures
        avoids_one(n, divs, p * p) <==> is_primitive_root_of_square(n, p),
{
    let big = (p * (p - 1)) as nat;
    let pp = p * p;
    assert(pp > p && big >= 2) by (nonlinear_arith)
        requires
            p > 2,
            pp == p * p,
            big == p * (p - 1),
    ;
    lemma_primitive_root_is_unit(n, p);
    lemma_euler_square(p, n);
    if avoids_one(n, divs, pp) {
        assert forall|d: nat| 0 < d < big && big % d == 0 implies #[trigger] pow_mod(n, d, pp)
            != 1 by {
            if d == 1 {
                lemma_pow_mod_first(n, pp);
                if n % pp == 1 {
                    lemma_fundamental_div_mod(n as int, pp as int);
                    let q = (n as int) / (pp as int);
                    assert(n == (q * p) * p + 1) by (nonlinear_arith)
                        requires
                            n == pp * q + 1,
                            pp == p * p,
                    ;
                    vstd::arithmetic::div_mod::lemma_fundamental_div_mod_converse_mod(
                        n as int,
                        p as int,
                        q * p,
                        1,
                    );
                }
            } else {
                assert(is_strict_divisor(d, big));
                assert(divs.contains(d));
                let j = choose|j: int| 0 <= j < divs.len() && divs[j] == d;
                assert(pow_mod(n, divs[j], pp) != 1);
            }
        }
        lemma_order_from_divisors(n, big, pp);
    }
    if is_primitive_root_of_square(n, p) {
        assert forall|i: int| 0 <= i < divs.len() implies pow_mod(n, #[trigger] divs[i], pp)
            != 1 by {
            assert(divs.contains(divs[i]));
            assert(is_strict_divisor(divs[i], big));
        }
    }
}

/// The z-primitive roots of a prime `p` from 5 on whose square fits in 64
/// bits, as `z_roots_of` states them: the list is there, it has no more
/// members than `p` has primitive roots, and it holds exactly the numbers
/// below `p` that are primitive roots of `p` and not of `p * p`.
pub proof fn lemma_z_roots(p: nat)
    requires
        is_prime(p),
        p >= 5,
        p * p <= u64::MAX,
    ensures
        z_roots_of(p) matches Ok(z) && z.len() <= totient((p - 1) as nat) && is_z_root_list(p, z),
{
    let small = listed_divisors((p - 1) as nat);
    assert(p % 2 == 1) by {
        if p % 2 == 0 {
            assert(p % 2 != 0);
        }
    }
    lemma_listed_divisors((p - 1) as nat);
    assert forall|i: int| 0 <= i < small.len() implies 0 < #[trigger] small[i] < p - 1 by {
        assert(small.contains(small[i]));
    }
    lemma_search_is_owed(p, small);
    let g = first_generator(p, small)->0;
    let roots = generator_powers(g, p);
    let all = extended_divisors(p, small);
    let keep = fails_to_lift(p, all);
    let z = roots.filter(keep);
    assert(z_roots_of(p) == Ok::<Seq<nat>, RangeError>(z));
    lemma_all_prs_are_primitive_roots(p, small, g);
    lemma_first_generator_is_primitive_root(p, small, g);
    lemma_union_rule(p);
    assert(lists_strict_divisors(all, (p * (p - 1)) as nat));
    roots.lemma_filter_len(keep);
    assert forall|x: nat| #[trigger]
        z.contains(x) <==> x < p && is_primitive_root(x, p) && !is_primitive_root_of_square(
            x,
            p,
        ) by {
        lemma_generator_powers_complete(p, g, x);
        if z.contains(x) {
            roots.lemma_filter_contains_rev(keep, x);
            let i = choose|i: int| 0 <= i < z.len() && z[i] == x;
            roots.lemma_filter_pred(keep, i);
            lemma_lift_test(p, x, all);
        }
        if x < p && is_primitive_root(x, p) && !is_primitive_root_of_square(x, p) {
            let j = choose|j: int| 0 <= j < roots.len() && roots[j] == x;
            lemma_lift_test(p, x, all);
            assert(keep(roots[j]));
            roots.lemma_filter_contains(keep, j);
        }
    }
    lemma_filter_keeps_distinct(roots, keep);
}

/// A list without duplicates stays without duplicates when it is
/// filtered.
pub proof fn lemma_filter_keeps_distinct(s: Seq<nat>, keep: spec_fn(nat) -> bool)
    requires
        s.no_duplicates(),
    ensures
        s.filter(keep).no_duplicates(),
    decreases s.len(),
{
    reveal(Seq::filter);
    if s.len() > 0 {
        let before = s.drop_last();
        assert forall|i: int, j: int|
            0 <= i < before.len() && 0 <= j < before.len() && i != j implies before[i]
            != before[j] by {
            assert(before[i] == s[i] && before[j] == s[j]);
        }
        lemma_filter_keeps_distinct(before, keep);
        let f = before.filter(keep);
        if keep(s.last()) {
            assert forall|i: int, j: int|
                0 <= i < f.push(s.last()).len() && 0 <= j < f.push(s.last()).len() && i
                    != j implies f.push(s.last())[i] != f.push(s.last())[j] by {
                if i < f.len() && j == f.len() {
                    assert(f.contains(f[i]));
                    before.lemma_filter_contains_rev(keep, f[i]);
                    let k = choose|k: int| 0 <= k < before.len() && before[k] == f[i];
                    assert(s[k] == f[i]);
                }
                if j < f.len() && i == f.len() {
                    assert(f.contains(f[j]));
                    before.lemma_filter_contains_rev(keep, f[j]);
                    let k = choose|k: int| 0 <= k < before.len() && before[k] == f[j];
                    assert(s[k] == f[j]);
                }
            }
        }
    }
}

/// The nonzero squares modulo an odd prime pass Euler's criterion.
pub proof fn lemma_squares_pass_euler(p: nat, n: nat)
    requires
        is_prime(p),
        p > 2,
        is_nonzero_square(n, p),
    ensures
        euler_criterion(n, p),
{
    let x = choose|x: nat| #[trigger] ((x * x) % p) == n % p;
    let h = ((p - 1) / 2) as nat;
    let xi = x as int;
    let pi = p as int;
    assert(x % p != 0) by {
        if x % p == 0 {
            lemma_mul_mod_noop_general(xi, xi, pi);
            assert(0 * 0 == 0);
            lemma_small_mod(0, p);
        }
    }
    assert(2 * h == p - 1) by {
        if p % 2 == 0 {
            assert(p % 2 != 0);
        }
    }
    lemma_fermat(p, x);
    lemma_square_is_pow2(xi);
    lemma_pow_multiplies(xi, 2, h);
    assert(pow(xi * xi, h) == pow(xi, (p - 1) as nat));
    lemma_pow_mod_noop(xi * xi, h, pi);
    lemma_pow_mod_noop(n as int, h, pi);
}

/// Every primitive root of `p` passes the order test against exponents
/// that lie strictly between 0 and `p - 1`: the test drops none.
pub proof fn lemma_primitive_root_passes(p: nat, divs: Seq<nat>, n: nat)
    requires
        p > 2,
        is_primitive_root(n, p),
        forall|i: int| 0 <= i < divs.len() ==> 0 < #[trigger] divs[i] < p - 1,
    ensures
        is_generator_candidate(n, p, divs),
{
    let h = ((p - 1) / 2) as nat;
    assert(0 < h < p - 1);
    assert(pow_mod(n, h, p) != 1);
}

/// The search order of an odd `p` above 3 holds every number of
/// `[2, p - 1)`, except `p - 2` where `p` leaves 7 modulo 8.
pub proof fn lemma_search_order_covers(p: nat, n: nat)
    requires
        p % 2 == 1,
        p > 3,
        2 <= n < p - 1,
        p % 8 == 7 ==> n != p - 2,
    ensures
        search_order(p).contains(n),
{
    let third = p / 3;
    let order = search_order(p);
    let top = (p - 1) as nat;
    if p % 8 == 1 {
        assert(p >= 9);
        if n == 2 {
            assert(order[0] == 2);
        } else if n >= third {
            assert(order[1 + (n - third)] == n);
        } else {
            assert(order[1 + (top - third) + (n - 3)] == n);
        }
    } else if p % 8 == 3 {
        assert(order[top - 1 - n] == n);
    } else if p % 8 == 5 {
        if n >= third {
            assert(order[n - third] == n);
        } else {
            assert(order[(top - third) + (n - 2)] == n);
        }
    } else {
        assert(p % 8 == 7);
        if n == 2 {
            assert(order[0] == 2);
        } else {
            assert(order[1 + (p - 3 - n)] == n);
        }
    }
}

/// The search is complete: for an odd `p` above 3 and exponents strictly
/// between 0 and `p - 1`, it finds a root whenever `p` has a primitive
/// root in `[0, p)` that the search order holds.
pub proof fn lemma_search_succeeds(p: nat, divs: Seq<nat>, n: nat)
    requires
        p % 2 == 1,
        p > 3,
        n < p,
        is_primitive_root(n, p),
        p % 8 == 7 ==> n != p - 2,
        forall|i: int| 0 <= i < divs.len() ==> 0 < #[trigger] divs[i] < p - 1,
    ensures
        first_generator(p, divs) is Some,
{
    lemma_order_excludes_trivial(n, (p - 1) as nat, p);
    lemma_search_order_covers(p, n);
    lemma_primitive_root_passes(p, divs, n);
    lemma_first_candidate(search_order(p), p, divs);
    let i = choose|i: int| 0 <= i < search_order(p).len() && search_order(p)[i] == n;
    assert(is_generator_candidate(search_order(p)[i], p, divs));
}

/// Two numbers that follow each other are coprime.
pub proof fn lemma_neighbours_coprime(n: nat)
    requires
        n >= 3,
    ensures
        gcd_nat((n - 1) as nat, n) == 1,
{
    let m = (n - 1) as nat;
    lemma_gcd_nat_is_greatest(m, n);
    let g = gcd_nat(m, n);
    assert(n % m == 1) by {
        vstd::arithmetic::div_mod::lemma_fundamental_div_mod_converse_mod(
            n as int,
            m as int,
            1,
            1,
        );
    }
    lemma_divides_remainder(g, n, m);
    lemma_divisor_bound(g, 1);
}

/// The search is owed its success: for a prime above 3 and exponents
/// strictly between 0 and `p - 1`, it finds a root.
pub proof fn lemma_search_is_owed(p: nat, divs: Seq<nat>)
    requires
        is_prime(p),
        p > 3,
        forall|i: int| 0 <= i < divs.len() ==> 0 < #[trigger] divs[i] < p - 1,
    ensures
        first_generator(p, divs) is Some,
{
    let n = (p - 1) as nat;
    assert(p % 2 == 1) by {
        if p % 2 == 0 {
            assert(p % 2 != 0);
        }
    }
    let g = lemma_primitive_root_exists(p);
    if p % 8 == 7 && g == p - 2 {
        let other = pow_mod(g, (n - 1) as nat, p);
        lemma_neighbours_coprime(n);
        lemma_coprime_power_keeps_order(g, n, p, (n - 1) as nat);
        lemma_powers_differ(g, n, p, 1, (n - 1) as nat);
        lemma_pow_mod_first(g, p);
        lemma_small_mod(g, p);
        lemma_search_succeeds(p, divs, other);
    } else {
        lemma_search_succeeds(p, divs, g);
    }
}

/// Modulo an odd prime, what passes Euler's criterion is a nonzero square.
pub proof fn lemma_euler_passers_are_squares(p: nat, n: nat)
    requires
        is_prime(p),
        p > 2,
        euler_criterion(n, p),
    ensures
        is_nonzero_square(n, p),
{
    let h = ((p - 1) / 2) as nat;
    let e = (p - 1) as nat;
    assert(2 * h == e) by {
        if p % 2 == 0 {
            assert(p % 2 != 0);
        }
    }
    let a = n % p;
    lemma_pow_mod_noop(n as int, h, p as int);
    assert(pow_mod(a, h, p) == 1);
    if a == 0 {
        lemma_pow_mod_of_zero(h, p);
    }
    let g = lemma_primitive_root_exists(p);
    let k = lemma_generator_reaches(p, g, a);
    lemma_pow_mod_mul(g, k, h, p);
    lemma_order_divides(g, e, p, k * h);
    lemma_mod_zero_is_multiple((k * h) as int, e as int);
    let j = (k * h) / e;
    assert(k == 2 * j) by (nonlinear_arith)
        requires
            k * h == e * j,
            e == 2 * h,
            h > 0,
    ;
    let x = pow_mod(g, j, p);
    lemma_pow_mod_add(g, j, j, p);
    assert((x * x) % p == n % p);
}

/// Modulo an odd prime, Euler's criterion tells the nonzero squares from
/// the rest.
pub proof fn lemma_euler_criterion(p: nat, n: nat)
    requires
        is_prime(p),
        p > 2,
    ensures
        euler_criterion(n, p) <==> is_nonzero_square(n, p),
{
    if euler_criterion(n, p) {
        lemma_euler_passers_are_squares(p, n);
    }
    if is_nonzero_square(n, p) {
        lemma_squares_pass_euler(p, n);
    }
}

/// `coprime_exponents(n, bound)` holds every number of `[1, bound)` that is
/// coprime to `n`.
pub proof fn lemma_coprime_exponents_complete(n: nat, bound: nat, k: nat)
    requires
        1 <= k < bound,
        gcd_nat(k, n) == 1,
    ensures
        coprime_exponents(n, bound).contains(k),
    decreases bound,
{
    let s = coprime_exponents(n, bound);
    let top = (bound - 1) as nat;
    let before = coprime_exponents(n, top);
    if k == top {
        assert(s[s.len() - 1] == k);
    } else {
        lemma_coprime_exponents_complete(n, top, k);
        let i = choose|i: int| 0 <= i < before.len() && before[i] == k;
        assert(s[i] == k);
    }
}

/// The powers that `find_all_prs` derives from a primitive root of a prime
/// are all the primitive roots that the prime has among `0, .., p - 1`.
pub proof fn lemma_generator_powers_complete(p: nat, g: nat, x: nat)
    requires
        is_prime(p),
        p > 3,
        is_primitive_root(g, p),
    ensures
        generator_powers(g, p).contains(x) <==> x < p && is_primitive_root(x, p),
{
    let n = (p - 1) as nat;
    let ks = coprime_exponents(n, p);
    let v = generator_powers(g, p);
    lemma_generator_powers(p, g);
    if v.contains(x) {
        let i = choose|i: int| 0 <= i < v.len() && v[i] == x;
        assert(is_primitive_root(v[i], p));
    }
    if x < p && is_primitive_root(x, p) {
        if x == 0 {
            lemma_pow_mod_of_zero(n, p);
        }
        let k = lemma_generator_reaches(p, g, x);
        lemma_gcd_nat_is_greatest(k, n);
        let d = gcd_nat(k, n);
        if d > 1 {
            lemma_mod_zero_is_multiple(k as int, d as int);
            lemma_mod_zero_is_multiple(n as int, d as int);
            let k1 = k / d;
            let n1 = n / d;
            assert(0 < n1 < n && k * n1 == n * k1) by (nonlinear_arith)
                requires
                    k == d * k1,
                    n == d * n1,
                    d > 1,
                    n > 0,
                    k > 0,
                    n1 >= 0,
            ;
            lemma_pow_mod_mul(g, k, n1, p);
            lemma_pow_mod_mul(g, n, k1, p);
            lemma_pow_mod_of_one(k1, p);
            assert(pow_mod(x, n1, p) == 1);
        }
        lemma_coprime_exponents_complete(n, p, k);
        let i = choose|i: int| 0 <= i < ks.len() && ks[i] == k;
        assert(v[i] == x);
    }
}

} // verus!
