//! Divisibility: Bezout's identity, and what follows from it for coprime
//! numbers and for primes.
use crate::arith::{divides, gcd_nat, lemma_gcd_nat_is_greatest};
use crate::primes::is_prime;
use vstd::arithmetic::div_mod::{
    lemma_fundamental_div_mod, lemma_mod_multiples_basic, lemma_small_mod,
};
use vstd::prelude::*;

verus! {

/// A multiple of `n` leaves no remainder modulo `n`.
pub proof fn lemma_multiple_mod(k: int, n: int)
    requires
        n > 0,
    ensures
        (k * n) % n == 0,
        (n * k) % n == 0,
{
    lemma_mod_multiples_basic(k, n);
    assert(k * n == n * k) by (nonlinear_arith);
}

/// What leaves no remainder modulo `n` is a multiple of `n`.
pub proof fn lemma_mod_zero_is_multiple(x: int, n: int)
    requires
        n > 0,
        x % n == 0,
    ensures
        x == n * (x / n),
{
    lemma_fundamental_div_mod(x, n);
}

/// Bezout's identity: the greatest common divisor of `a` and `b` is a
/// combination of them with integer coefficients, which are returned.
pub proof fn lemma_bezout(a: nat, b: nat) -> (c: (int, int))
    ensures
        a * c.0 + b * c.1 == gcd_nat(a, b),
    decreases b,
{
    if b == 0 {
        (1, 0)
    } else {
        let r = a % b;
        let q = (a / b) as int;
        let (x, y) = lemma_bezout(b, r);
        lemma_fundamental_div_mod(a as int, b as int);
        assert(a * y + b * (x - q * y) == b * x + r * y) by (nonlinear_arith)
            requires
                a == b * q + r,
        ;
        (y, x - q * y)
    }
}

/// Gauss's lemma: what is coprime to `n` can be cancelled from a product
/// that `n` divides.
pub proof fn lemma_gauss(n: nat, a: nat, b: nat)
    requires
        n > 0,
        gcd_nat(a, n) == 1,
        (a * b) % n == 0,
    ensures
        b % n == 0,
{
    let (x, y) = lemma_bezout(a, n);
    let k = ((a * b) / n) as int;
    lemma_fundamental_div_mod((a * b) as int, n as int);
    assert(b == (k * x + b * y) * n) by (nonlinear_arith)
        requires
            a * x + n * y == 1,
            a * b == n * k,
    ;
    lemma_multiple_mod(k * x + b * y, n as int);
}

/// A prime is coprime to what it does not divide.
pub proof fn lemma_prime_coprime(p: nat, a: nat)
    requires
        is_prime(p),
        a % p != 0,
    ensures
        gcd_nat(a, p) == 1,
        gcd_nat(p, a) == 1,
{
    lemma_gcd_nat_is_greatest(a, p);
    let g = gcd_nat(a, p);
    assert(g <= p) by {
        if g > p {
            lemma_small_mod(p, g);
        }
    }
    if g == p {
        assert(a % p == 0);
    }
    assert(g == 1);
    assert(a > 0) by {
        if a == 0 {
            lemma_small_mod(0, p);
        }
    }
    lemma_gcd_nat_is_greatest(p, a);
    let h = gcd_nat(p, a);
    assert(h <= p) by {
        if h > p {
            lemma_small_mod(p, h);
        }
    }
    if h == p {
        assert(a % p == 0);
    }
}

/// Euclid's lemma: a prime that divides a product divides a factor.
pub proof fn lemma_euclid(p: nat, a: nat, b: nat)
    requires
        is_prime(p),
        (a * b) % p == 0,
    ensures
        a % p == 0 || b % p == 0,
{
    if a % p != 0 {
        lemma_prime_coprime(p, a);
        lemma_gauss(p, a, b);
    }
}

/// A positive divisor is at most what it divides, if that is positive.
pub proof fn lemma_divisor_bound(d: nat, n: nat)
    requires
        divides(d, n),
        n > 0,
    ensures
        d <= n,
{
    if d > n {
        lemma_small_mod(n, d);
    }
}

} // verus!
