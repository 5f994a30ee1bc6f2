//! Fermat's little theorem, by the binomial theorem, and its consequence
//! for the square of a prime.
use crate::arith::pow_mod;
use crate::euclid::{lemma_euclid, lemma_mod_zero_is_multiple, lemma_multiple_mod};
use crate::primes::is_prime;
use vstd::arithmetic::div_mod::{lemma_fundamental_div_mod_converse_mod, lemma_small_mod};
use vstd::arithmetic::power::{lemma0_pow, lemma_pow1, lemma_pow_multiplies, lemma_pow_positive, pow};
use vstd::prelude::*;

verus! {

/// The binomial coefficient `n` over `k`, by Pascal's rule.
pub open spec fn binomial(n: nat, k: nat) -> nat
    decreases n,
{
    if k == 0 {
        1
    } else if n == 0 {
        0
    } else {
        binomial((n - 1) as nat, (k - 1) as nat) + binomial((n - 1) as nat, k)
    }
}

/// The first terms of the binomial expansion of `(x + 1)` to the power
/// `n`: those of the powers of `x` from 0 to `m`.
pub open spec fn binomial_sum(n: nat, x: int, m: nat) -> int
    decreases m,
{
    if m == 0 {
        1
    } else {
        binomial_sum(n, x, (m - 1) as nat) + binomial(n, m) * pow(x, m)
    }
}

/// The sum of two multiples of `n` is a multiple of `n`.
pub proof fn lemma_sum_of_multiples(a: int, b: int, n: int)
    requires
        n > 0,
        a % n == 0,
        b % n == 0,
    ensures
        (a + b) % n == 0,
{
    lemma_mod_zero_is_multiple(a, n);
    lemma_mod_zero_is_multiple(b, n);
    assert(a + b == (a / n + b / n) * n) by (nonlinear_arith)
        requires
            a == n * (a / n),
            b == n * (b / n),
    ;
    lemma_multiple_mod(a / n + b / n, n);
}

/// `k` times `n` over `k` is `n` times `n - 1` over `k - 1`.
pub proof fn lemma_binomial_absorb(n: nat, k: nat)
    requires
        n >= 1,
        k >= 1,
    ensures
        k * binomial(n, k) == n * binomial((n - 1) as nat, (k - 1) as nat),
    decreases n,
{
    let a = binomial((n - 1) as nat, (k - 1) as nat) as int;
    let b = binomial((n - 1) as nat, k) as int;
    let whole = binomial(n, k) as int;
    assert(whole == a + b);
    if n == 1 {
        assert(b == 0);
        if k == 1 {
            assert(a == 1);
        } else {
            assert(a == 0);
        }
        assert(k * whole == n * a) by (nonlinear_arith)
            requires
                whole == a + b,
                b == 0,
                n == 1,
                (k == 1 && a == 1) || a == 0,
        ;
    } else {
        lemma_binomial_absorb((n - 1) as nat, k);
        let d = binomial((n - 2) as nat, (k - 1) as nat) as int;
        assert(k * b == (n - 1) * d);
        if k == 1 {
            assert(a == 1);
            assert(d == 1);
            assert(k * whole == n * a) by (nonlinear_arith)
                requires
                    whole == a + b,
                    k == 1,
                    a == 1,
                    d == 1,
                    k * b == (n - 1) * d,
            ;
        } else {
            lemma_binomial_absorb((n - 1) as nat, (k - 1) as nat);
            let c = binomial((n - 2) as nat, (k - 2) as nat) as int;
            assert((k - 1) * a == (n - 1) * c);
            assert(a == c + d);
            assert(k * whole == n * a) by (nonlinear_arith)
                requires
                    whole == a + b,
                    k * b == (n - 1) * d,
                    (k - 1) * a == (n - 1) * c,
                    a == c + d,
            ;
        }
    }
}

/// There is no way to pick more than `n` out of `n`, and one way to pick
/// all.
pub proof fn lemma_binomial_top(n: nat, k: nat)
    requires
        k >= n,
    ensures
        k > n ==> binomial(n, k) == 0,
        k == n ==> binomial(n, k) == 1,
    decreases n,
{
    if n > 0 && k > 0 {
        lemma_binomial_top((n - 1) as nat, (k - 1) as nat);
        lemma_binomial_top((n - 1) as nat, k);
    }
}

/// A prime `p` divides `p` over `k` for `0 < k < p`.
pub proof fn lemma_binomial_of_prime(p: nat, k: nat)
    requires
        is_prime(p),
        0 < k < p,
    ensures
        binomial(p, k) % p == 0,
{
    lemma_binomial_absorb(p, k);
    let c = binomial((p - 1) as nat, (k - 1) as nat);
    lemma_multiple_mod(c as int, p as int);
    assert((k * binomial(p, k)) % p == 0);
    lemma_euclid(p, k, binomial(p, k));
    lemma_small_mod(k, p);
}

/// Pascal's rule, for the sums: the expansion for `n + 1` is that for `n`
/// plus `x` times that for `n` shifted by one power.
pub proof fn lemma_binomial_sum_step(n: nat, x: int, m: nat)
    requires
        m >= 1,
    ensures
        binomial_sum(n + 1, x, m) == binomial_sum(n, x, m) + x * binomial_sum(
            n,
            x,
            (m - 1) as nat,
        ),
    decreases m,
{
    let up = binomial(n + 1, m) as int;
    let here = binomial(n, m) as int;
    let left = binomial(n, (m - 1) as nat) as int;
    assert(up == left + here);
    let xm = pow(x, m);
    let xm1 = pow(x, (m - 1) as nat);
    assert(xm == x * xm1) by {
        reveal(pow);
    }
    let s1 = binomial_sum(n, x, (m - 1) as nat);
    if m == 1 {
        lemma_pow1(x);
        assert(left == 1);
        assert(s1 == 1);
        assert(binomial_sum(n + 1, x, 0) == 1);
        assert(1 + (left + here) * xm == (1 + here * xm) + x * 1) by (nonlinear_arith)
            requires
                left == 1,
                xm == x,
        ;
    } else {
        lemma_binomial_sum_step(n, x, (m - 1) as nat);
        let s2 = binomial_sum(n, x, (m - 2) as nat);
        let t = binomial_sum(n + 1, x, (m - 1) as nat);
        assert(t == s1 + x * s2);
        assert(s1 == s2 + left * xm1);
        assert(t + (left + here) * xm == (s1 + here * xm) + x * s1) by (nonlinear_arith)
            requires
                t == s1 + x * s2,
                s1 == s2 + left * xm1,
                xm == x * xm1,
        ;
    }
}

/// The binomial theorem for `x + 1`.
pub proof fn lemma_binomial_theorem(x: int, n: nat)
    ensures
        pow(x + 1, n) == binomial_sum(n, x, n),
    decreases n,
{
    if n == 0 {
        reveal(pow);
    } else {
        let k = (n - 1) as nat;
        lemma_binomial_theorem(x, k);
        lemma_binomial_sum_step(k, x, n);
        lemma_binomial_top(k, n);
        let s = binomial_sum(k, x, k);
        assert(binomial_sum(k, x, n) == s + binomial(k, n) * pow(x, n));
        assert(binomial_sum(k, x, n) == s) by (nonlinear_arith)
            requires
                binomial_sum(k, x, n) == s + binomial(k, n) * pow(x, n),
                binomial(k, n) == 0,
        ;
        assert(pow(x + 1, n) == (x + 1) * pow(x + 1, k)) by {
            reveal(pow);
        }
        assert((x + 1) * s == s + x * s) by (nonlinear_arith);
    }
}

/// Modulo a prime `p`, the expansion of `(x + 1)` to the power `p` stays at
/// 1 until its last term.
pub proof fn lemma_binomial_sum_mod_prime(p: nat, x: int, m: nat)
    requires
        is_prime(p),
        m < p,
    ensures
        (binomial_sum(p, x, m) - 1) % (p as int) == 0,
    decreases m,
{
    if m == 0 {
        lemma_small_mod(0, p);
    } else {
        lemma_binomial_sum_mod_prime(p, x, (m - 1) as nat);
        lemma_binomial_of_prime(p, m);
        let b = binomial(p, m) as int;
        lemma_mod_zero_is_multiple(b, p as int);
        let c = b / (p as int);
        let term = b * pow(x, m);
        assert(term == (c * pow(x, m)) * p) by (nonlinear_arith)
            requires
                term == b * pow(x, m),
                b == p * c,
        ;
        lemma_multiple_mod(c * pow(x, m), p as int);
        lemma_sum_of_multiples(binomial_sum(p, x, (m - 1) as nat) - 1, term, p as int);
    }
}

/// Modulo a prime `p`, raising to the power `p` goes through a sum with 1.
pub proof fn lemma_freshman(p: nat, x: int)
    requires
        is_prime(p),
    ensures
        (pow(x + 1, p) - pow(x, p) - 1) % (p as int) == 0,
{
    lemma_binomial_theorem(x, p);
    lemma_binomial_top(p, p);
    lemma_binomial_sum_mod_prime(p, x, (p - 1) as nat);
    let s = binomial_sum(p, x, (p - 1) as nat);
    assert(binomial_sum(p, x, p) == s + binomial(p, p) * pow(x, p));
    assert(binomial_sum(p, x, p) == s + pow(x, p)) by (nonlinear_arith)
        requires
            binomial_sum(p, x, p) == s + binomial(p, p) * pow(x, p),
            binomial(p, p) == 1,
    ;
}

/// Modulo a prime `p`, every number is its own power `p`.
pub proof fn lemma_power_p(p: nat, a: nat)
    requires
        is_prime(p),
    ensures
        (pow(a as int, p) - a) % (p as int) == 0,
    decreases a,
{
    if a == 0 {
        lemma0_pow(p);
        lemma_small_mod(0, p);
    } else {
        let b = (a - 1) as nat;
        lemma_power_p(p, b);
        lemma_freshman(p, b as int);
        lemma_sum_of_multiples(
            pow(b as int + 1, p) - pow(b as int, p) - 1,
            pow(b as int, p) - b,
            p as int,
        );
    }
}

/// Fermat's little theorem: modulo a prime `p`, the power `p - 1` takes
/// what `p` does not divide to 1.
pub proof fn lemma_fermat(p: nat, a: nat)
    requires
        is_prime(p),
        a % p != 0,
    ensures
        pow_mod(a, (p - 1) as nat, p) == 1,
{
    assert(a > 0) by {
        if a == 0 {
            lemma_small_mod(0, p);
        }
    }
    lemma_power_p(p, a);
    let e = (p - 1) as nat;
    let big = pow(a as int, e);
    lemma_pow_positive(a as int, e);
    assert(pow(a as int, p) == a * big) by {
        reveal(pow);
    }
    let rest = (big - 1) as nat;
    assert(a * rest == pow(a as int, p) - a) by (nonlinear_arith)
        requires
            pow(a as int, p) == a * big,
            rest == big - 1,
    ;
    lemma_euclid(p, a, rest);
    lemma_mod_zero_is_multiple(rest as int, p as int);
    lemma_fundamental_div_mod_converse_mod(big, p as int, (rest as int) / (p as int), 1);
}

/// Modulo `p * p`, the power `j` of `1 + k * p` is `1 + j * k * p`.
pub proof fn lemma_power_near_one(p: int, k: int, j: nat)
    requires
        p > 0,
    ensures
        (pow(1 + k * p, j) - (1 + j * k * p)) % (p * p) == 0,
    decreases j,
{
    let b = 1 + k * p;
    let pp = p * p;
    assert(pp > 0) by (nonlinear_arith)
        requires
            p > 0,
            pp == p * p,
    ;
    if j == 0 {
        assert(pow(b, 0) == 1) by {
            reveal(pow);
        }
        assert(0 * k * p == 0) by (nonlinear_arith);
        lemma_small_mod(0, pp as nat);
    } else {
        let i = (j - 1) as nat;
        lemma_power_near_one(p, k, i);
        let prev = pow(b, i);
        let diff = prev - (1 + i * k * p);
        lemma_mod_zero_is_multiple(diff, pp);
        let t = diff / pp;
        assert(pow(b, j) == b * prev) by {
            reveal(pow);
        }
        assert(b * prev - (1 + j * k * p) == (t + i * k * k + k * t * p) * pp) by (nonlinear_arith)
            requires
                b == 1 + k * p,
                prev - (1 + i * k * p) == pp * t,
                pp == p * p,
                j == i + 1,
        ;
        lemma_multiple_mod(t + i * k * k + k * t * p, pp);
    }
}

/// Euler's theorem for the square of a prime: modulo `p * p`, the power
/// `p * (p - 1)` takes what `p` does not divide to 1.
pub proof fn lemma_euler_square(p: nat, a: nat)
    requires
        is_prime(p),
        a % p != 0,
    ensures
        pow_mod(a, (p * (p - 1)) as nat, p * p) == 1,
{
    let e = (p - 1) as nat;
    let pi = p as int;
    let pp = pi * pi;
    assert(pp > 1) by (nonlinear_arith)
        requires
            pi >= 2,
            pp == pi * pi,
    ;
    lemma_fermat(p, a);
    let big = pow(a as int, e);
    vstd::arithmetic::div_mod::lemma_fundamental_div_mod(big, pi);
    let k = big / pi;
    assert(big == 1 + k * pi) by (nonlinear_arith)
        requires
            big == pi * k + 1,
    ;
    lemma_power_near_one(pi, k, p);
    lemma_pow_multiplies(a as int, e, p);
    assert(e * p == p * (p - 1)) by (nonlinear_arith)
        requires
            e == p - 1,
    ;
    let whole = pow(a as int, (p * (p - 1)) as nat);
    assert(whole == pow(big, p));
    let diff = whole - (1 + p * k * pi);
    lemma_mod_zero_is_multiple(diff, pp);
    let t = diff / pp;
    assert(whole == (t + k) * pp + 1) by (nonlinear_arith)
        requires
            whole - (1 + p * k * pi) == pp * t,
            pp == pi * pi,
            pi == p,
    ;
    lemma_fundamental_div_mod_converse_mod(whole, pp, t + k, 1);
}

} // verus!
