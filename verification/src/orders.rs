//! Multiplicative orders: residues of powers, the order of a residue, and
//! how the divisors of a number decide whether it is the order.
use crate::arith::{divides, gcd_nat, lemma_gcd_nat_is_greatest, pow_mod};
use crate::euclid::{lemma_divisor_bound, lemma_gauss};
use vstd::arithmetic::div_mod::{
    lemma_fundamental_div_mod, lemma_mod_multiples_vanish, lemma_mul_mod_noop, lemma_small_mod,
};
use vstd::arithmetic::power::{
    lemma0_pow, lemma1_pow, lemma_pow1, lemma_pow_adds, lemma_pow_mod_noop, lemma_pow_multiplies,
    pow,
};
use vstd::prelude::*;

verus! {

/// `g` has the multiplicative order `n` modulo `m`: `n` is the least
/// positive exponent that takes `g` to 1.
pub open spec fn has_order(g: nat, n: nat, m: nat) -> bool {
    n > 0 && pow_mod(g, n, m) == 1 && forall|e: nat| 0 < e < n ==> #[trigger] pow_mod(g, e, m) != 1
}

/// `g` is a primitive root modulo the prime `p`: its order is `p - 1`.
pub open spec fn is_primitive_root(g: nat, p: nat) -> bool {
    has_order(g, (p - 1) as nat, p)
}

/// `g` is a primitive root modulo the square of the prime `p`: its order
/// modulo `p * p` is `p * (p - 1)`.
pub open spec fn is_primitive_root_of_square(g: nat, p: nat) -> bool {
    has_order(g, (p * (p - 1)) as nat, p * p)
}

/// The residue of a power with a sum as exponent.
pub proof fn lemma_pow_mod_add(g: nat, a: nat, b: nat, m: nat)
    requires
        m > 0,
    ensures
        pow_mod(g, a + b, m) == (pow_mod(g, a, m) * pow_mod(g, b, m)) % m,
{
    lemma_pow_adds(g as int, a, b);
    lemma_mul_mod_noop(pow(g as int, a), pow(g as int, b), m as int);
}

/// The residue of a power with a product as exponent.
pub proof fn lemma_pow_mod_mul(g: nat, a: nat, q: nat, m: nat)
    requires
        m > 0,
    ensures
        pow_mod(g, a * q, m) == pow_mod(pow_mod(g, a, m), q, m),
{
    lemma_pow_multiplies(g as int, a, q);
    lemma_pow_mod_noop(pow(g as int, a), q, m as int);
}

/// Every power of 1 leaves 1.
pub proof fn lemma_pow_mod_of_one(q: nat, m: nat)
    requires
        m > 1,
    ensures
        pow_mod(1, q, m) == 1,
{
    lemma1_pow(q);
    lemma_small_mod(1, m);
}

/// The first power is the residue of the base.
pub proof fn lemma_pow_mod_first(g: nat, m: nat)
    requires
        m > 0,
    ensures
        pow_mod(g, 1, m) == g % m,
{
    lemma_pow1(g as int);
}

/// A positive power of 0 leaves 0.
pub proof fn lemma_pow_mod_of_zero(e: nat, m: nat)
    requires
        m > 0,
        e > 0,
    ensures
        pow_mod(0, e, m) == 0,
{
    lemma0_pow(e);
    lemma_small_mod(0, m);
}

/// Exponents that take `g` to 1 are closed under taking remainders.
pub proof fn lemma_pow_one_remainder(g: nat, a: nat, b: nat, m: nat)
    requires
        m > 1,
        b > 0,
        pow_mod(g, a, m) == 1,
        pow_mod(g, b, m) == 1,
    ensures
        pow_mod(g, a % b, m) == 1,
{
    let q = a / b;
    let r = a % b;
    lemma_fundamental_div_mod(a as int, b as int);
    assert(a == b * q + r);
    lemma_pow_mod_mul(g, b, q, m);
    lemma_pow_mod_of_one(q, m);
    lemma_pow_mod_add(g, b * q, r, m);
    lemma_small_mod(pow_mod(g, r, m), m);
    assert(1 * pow_mod(g, r, m) == pow_mod(g, r, m));
}

/// Exponents that take `g` to 1 are closed under the greatest common
/// divisor.
pub proof fn lemma_pow_one_gcd(g: nat, a: nat, b: nat, m: nat)
    requires
        m > 1,
        pow_mod(g, a, m) == 1,
        pow_mod(g, b, m) == 1,
    ensures
        pow_mod(g, gcd_nat(a, b), m) == 1,
    decreases b,
{
    if b != 0 {
        lemma_pow_one_remainder(g, a, b, m);
        lemma_pow_one_gcd(g, b, a % b, m);
    }
}

/// If `n` takes `g` to 1 and no divisor of `n` below `n` does, then `n` is
/// the order of `g`.
pub proof fn lemma_order_from_divisors(g: nat, n: nat, m: nat)
    requires
        m > 1,
        n > 0,
        pow_mod(g, n, m) == 1,
        forall|d: nat| 0 < d < n && n % d == 0 ==> #[trigger] pow_mod(g, d, m) != 1,
    ensures
        has_order(g, n, m),
{
    assert forall|e: nat| 0 < e < n implies #[trigger] pow_mod(g, e, m) != 1 by {
        if pow_mod(g, e, m) == 1 {
            lemma_pow_one_gcd(g, e, n, m);
            lemma_gcd_nat_is_greatest(e, n);
            let d = gcd_nat(e, n);
            lemma_divisor_bound(d, e);
            assert(pow_mod(g, d, m) != 1);
        }
    }
}

/// The order divides every exponent that takes `g` to 1.
pub proof fn lemma_order_divides(g: nat, n: nat, m: nat, e: nat)
    requires
        m > 1,
        has_order(g, n, m),
        pow_mod(g, e, m) == 1,
    ensures
        e % n == 0,
{
    lemma_pow_one_remainder(g, e, n, m);
    let r = e % n;
    if r != 0 {
        assert(pow_mod(g, r, m) != 1);
    }
}

/// A power of `g` whose exponent is coprime to the order of `g` has the
/// same order.
pub proof fn lemma_coprime_power_keeps_order(g: nat, n: nat, m: nat, k: nat)
    requires
        m > 1,
        has_order(g, n, m),
        gcd_nat(k, n) == 1,
    ensures
        has_order(pow_mod(g, k, m), n, m),
{
    let x = pow_mod(g, k, m);
    assert(pow_mod(x, n, m) == 1) by {
        lemma_pow_mod_mul(g, k, n, m);
        lemma_pow_mod_mul(g, n, k, m);
        assert(k * n == n * k) by (nonlinear_arith);
        lemma_pow_mod_of_one(k, m);
    }
    assert forall|e: nat| 0 < e < n implies #[trigger] pow_mod(x, e, m) != 1 by {
        if pow_mod(x, e, m) == 1 {
            lemma_pow_mod_mul(g, k, e, m);
            lemma_order_divides(g, n, m, k * e);
            lemma_gauss(n, k, e);
            lemma_small_mod(e, n);
        }
    }
}

/// Two exponents from 1 up to the order of `g` give residues that differ.
pub proof fn lemma_powers_differ(g: nat, n: nat, m: nat, j: nat, k: nat)
    requires
        m > 1,
        has_order(g, n, m),
        1 <= j < k <= n,
    ensures
        pow_mod(g, j, m) != pow_mod(g, k, m),
{
    if pow_mod(g, j, m) == pow_mod(g, k, m) {
        let rest = (n - j) as nat;
        lemma_pow_mod_add(g, j, rest, m);
        lemma_pow_mod_add(g, k, rest, m);
        assert(pow_mod(g, k + rest, m) == 1);
        lemma_order_divides(g, n, m, k + rest);
        let diff = (k - j) as nat;
        assert(k + rest == n + diff);
        assert(diff % n == 0) by {
            lemma_mod_multiples_vanish(1, diff as int, n as int);
        }
        lemma_small_mod(diff, n);
    }
}

/// What has an order above 2 modulo `m` is none of 0, 1 and `m - 1`.
pub proof fn lemma_order_excludes_trivial(x: nat, n: nat, m: nat)
    requires
        m > 1,
        n > 2,
        x < m,
        has_order(x, n, m),
    ensures
        2 <= x < m - 1,
{
    if x == 0 {
        lemma_pow_mod_of_zero(n, m);
    }
    if x == 1 {
        lemma_pow_mod_of_one(1, m);
        assert(pow_mod(x, 1, m) != 1);
    }
    if x == m - 1 {
        let xi = x as int;
        vstd::arithmetic::power::lemma_square_is_pow2(xi);
        assert(xi * xi == (m - 2) * m + 1) by (nonlinear_arith)
            requires
                xi == m - 1,
        ;
        lemma_mod_multiples_vanish((m - 2) as int, 1, m as int);
        lemma_small_mod(1, m);
        assert((m - 2) * m + 1 == m * (m - 2) + 1) by (nonlinear_arith);
        assert(pow_mod(x, 2, m) == 1);
    }
}

} // verus!
