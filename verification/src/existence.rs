//! Every prime has a primitive root: an element of each order that divides
//! `p - 1` is built from elements of prime-power order, which exist by
//! Lagrange's bound on the roots of a polynomial.
use crate::arith::{divides, gcd_nat, lemma_gcd_nat_is_greatest, pow_mod};
use crate::euclid::{
    lemma_divisor_bound, lemma_euclid, lemma_gauss, lemma_mod_zero_is_multiple,
    lemma_multiple_mod, lemma_prime_coprime,
};
use crate::fermat::lemma_fermat;
use crate::orders::{
    has_order, is_primitive_root, lemma_order_divides, lemma_order_from_divisors,
    lemma_pow_mod_mul, lemma_pow_mod_of_one, lemma_pow_mod_of_zero, lemma_powers_differ,
};
use crate::polynomials::lemma_unity_root_bound;
use crate::primes::is_prime;
use vstd::arithmetic::div_mod::{lemma_mod_self_0, lemma_mul_mod_noop_general, lemma_small_mod};
use vstd::arithmetic::power::{lemma_pow1, lemma_pow_adds, lemma_pow_distributes, pow};
use vstd::prelude::*;

verus! {

/// Divisibility is transitive.
pub proof fn lemma_divides_transitive(a: nat, b: nat, c: nat)
    requires
        divides(a, b),
        divides(b, c),
    ensures
        divides(a, c),
{
    lemma_mod_zero_is_multiple(b as int, a as int);
    lemma_mod_zero_is_multiple(c as int, b as int);
    let k = (b as int) / (a as int);
    let l = (c as int) / (b as int);
    assert(c == (k * l) * a) by (nonlinear_arith)
        requires
            b == a * k,
            c == b * l,
    ;
    lemma_multiple_mod(k * l, a as int);
}

/// Every number above 1 has a prime divisor, which is returned.
pub proof fn lemma_prime_factor(m: nat) -> (q: nat)
    requires
        m > 1,
    ensures
        is_prime(q),
        divides(q, m),
    decreases m,
{
    if is_prime(m) {
        lemma_mod_self_0(m as int);
        m
    } else {
        let d = choose|d: nat| 1 < d < m && #[trigger] (m % d) == 0;
        let q = lemma_prime_factor(d);
        lemma_divides_transitive(q, d, m);
        q
    }
}

/// A multiple of `q` is a power of `q`, with an exponent from 1 on, times
/// a number that `q` does not divide; the exponent and that number are
/// returned.
pub proof fn lemma_split_prime_power(m: nat, q: nat) -> (r: (nat, nat))
    requires
        q >= 2,
        m >= 1,
        m % q == 0,
    ensures
        r.0 >= 1,
        r.1 >= 1,
        m == pow(q as int, r.0) * r.1,
        r.1 % q != 0,
    decreases m,
{
    reveal(pow);
    lemma_mod_zero_is_multiple(m as int, q as int);
    let m1 = m / q;
    assert(m == q * m1);
    assert(1 <= m1 < m) by (nonlinear_arith)
        requires
            m == q * m1,
            q >= 2,
            m >= 1,
    ;
    if m1 % q != 0 {
        lemma_pow1(q as int);
        (1, m1)
    } else {
        let (e, rest) = lemma_split_prime_power(m1, q);
        assert(pow(q as int, e + 1) == q * pow(q as int, e));
        assert(m == (q * pow(q as int, e)) * rest) by (nonlinear_arith)
            requires
                m == q * m1,
                m1 == pow(q as int, e) * rest,
        ;
        (e + 1, rest)
    }
}

/// A power of a number from 1 on is a number from 1 on.
pub proof fn lemma_pow_nat(q: nat, e: nat)
    requires
        q >= 1,
    ensures
        pow(q as int, e) >= 1,
        q >= 2 && e >= 1 ==> pow(q as int, e) >= q,
    decreases e,
{
    reveal(pow);
    if e > 0 {
        lemma_pow_nat(q, (e - 1) as nat);
        assert(q * pow(q as int, (e - 1) as nat) >= q) by (nonlinear_arith)
            requires
                q >= 1,
                pow(q as int, (e - 1) as nat) >= 1,
        ;
    }
}

/// What a prime `q` does not divide, and what divides a power of `q` times
/// `z`, divides `z`.
pub proof fn lemma_cancel_prime_power(c: nat, q: nat, e: nat, z: nat)
    requires
        is_prime(q),
        c >= 1,
        c % q != 0,
        (pow(q as int, e) * z) % (c as int) == 0,
    ensures
        z % c == 0,
    decreases e,
{
    reveal(pow);
    if e == 0 {
        assert(pow(q as int, 0) * z == z) by (nonlinear_arith)
            requires
                pow(q as int, 0) == 1,
        ;
    } else {
        let lower = pow(q as int, (e - 1) as nat);
        lemma_pow_nat(q, (e - 1) as nat);
        let inner = (lower * z) as nat;
        assert(lower * z >= 0) by (nonlinear_arith)
            requires
                lower >= 1,
                z >= 0,
        ;
        assert(pow(q as int, e) * z == q * inner) by (nonlinear_arith)
            requires
                pow(q as int, e) == q * lower,
                inner == lower * z,
        ;
        lemma_prime_coprime(q, c);
        lemma_gauss(c, q, inner);
        lemma_cancel_prime_power(c, q, (e - 1) as nat, z);
    }
}

/// A divisor of a power of a prime, other than the power itself, divides
/// the power before it.
pub proof fn lemma_prime_power_divisor(q: nat, e: nat, d: nat)
    requires
        is_prime(q),
        e >= 1,
        d >= 1,
        pow(q as int, e) % (d as int) == 0,
        d < pow(q as int, e),
    ensures
        pow(q as int, (e - 1) as nat) % (d as int) == 0,
{
    reveal(pow);
    let big = pow(q as int, e);
    let lower = pow(q as int, (e - 1) as nat);
    lemma_pow_nat(q, e);
    lemma_pow_nat(q, (e - 1) as nat);
    lemma_mod_zero_is_multiple(big, d as int);
    let c = big / (d as int);
    assert(c >= 2) by (nonlinear_arith)
        requires
            big == d * c,
            d < big,
            d >= 1,
    ;
    if (c as nat) % q != 0 {
        assert(big * 1 == d * c) by (nonlinear_arith)
            requires
                big == d * c,
        ;
        lemma_multiple_mod(d as int, c);
        lemma_cancel_prime_power(c as nat, q, e, 1);
        lemma_small_mod(1, c as nat);
    }
    lemma_mod_zero_is_multiple(c, q as int);
    let c1 = c / (q as int);
    assert(lower == c1 * d) by (nonlinear_arith)
        requires
            big == d * c,
            c == q * c1,
            big == q * lower,
            q >= 2,
    ;
    lemma_multiple_mod(c1, d as int);
}

/// What a prime power takes to 1, and the prime power before it does not,
/// has the prime power as its order.
pub proof fn lemma_prime_power_order(x: nat, q: nat, e: nat, m: nat)
    requires
        is_prime(q),
        e >= 1,
        m > 1,
        pow_mod(x, pow(q as int, e) as nat, m) == 1,
        pow_mod(x, pow(q as int, (e - 1) as nat) as nat, m) != 1,
    ensures
        has_order(x, pow(q as int, e) as nat, m),
{
    let big = pow(q as int, e) as nat;
    let lower = pow(q as int, (e - 1) as nat) as nat;
    lemma_pow_nat(q, e);
    lemma_pow_nat(q, (e - 1) as nat);
    assert forall|d: nat| 0 < d < big && big % d == 0 implies #[trigger] pow_mod(x, d, m)
        != 1 by {
        if pow_mod(x, d, m) == 1 {
            lemma_prime_power_divisor(q, e, d);
            lemma_mod_zero_is_multiple(lower as int, d as int);
            let k = (lower / d) as nat;
            assert(lower == d * k);
            lemma_pow_mod_mul(x, d, k, m);
            lemma_pow_mod_of_one(k, m);
        }
    }
    lemma_order_from_divisors(x, big, m);
}

/// A power of `x` whose exponent divides the order of `x` has the
/// quotient as its order.
pub proof fn lemma_order_of_power(x: nat, u: nat, s: nat, m: nat)
    requires
        m > 1,
        u >= 1,
        s >= 1,
        has_order(x, u * s, m),
    ensures
        has_order(pow_mod(x, s, m), u, m),
{
    let y = pow_mod(x, s, m);
    lemma_pow_mod_mul(x, s, u, m);
    assert(s * u == u * s) by (nonlinear_arith);
    assert forall|e: nat| 0 < e < u implies #[trigger] pow_mod(y, e, m) != 1 by {
        lemma_pow_mod_mul(x, s, e, m);
        assert(0 < s * e < u * s) by (nonlinear_arith)
            requires
                0 < e < u,
                s >= 1,
        ;
    }
}

/// Being coprime does not depend on the order of the two numbers.
pub proof fn lemma_coprime_symmetric(u: nat, v: nat)
    requires
        u > 0 || v > 0,
        gcd_nat(u, v) == 1,
    ensures
        gcd_nat(v, u) == 1,
{
    lemma_gcd_nat_is_greatest(u, v);
    lemma_gcd_nat_is_greatest(v, u);
    let g = gcd_nat(v, u);
    assert(divides(g, 1));
    lemma_divisor_bound(g, 1);
}

/// The residue of a power of a product.
pub proof fn lemma_pow_mod_product(x: nat, y: nat, e: nat, m: nat)
    requires
        m > 0,
    ensures
        pow_mod((x * y) % m, e, m) == (pow_mod(x, e, m) * pow_mod(y, e, m)) % m,
{
    let xi = x as int;
    let yi = y as int;
    vstd::arithmetic::power::lemma_pow_mod_noop(xi * yi, e, m as int);
    lemma_pow_distributes(xi, yi, e);
    lemma_mul_mod_noop_general(pow(xi, e), pow(yi, e), m as int);
}

/// The product of two residues with coprime orders has the product of the
/// orders as its order.
pub proof fn lemma_order_of_product(x: nat, u: nat, y: nat, v: nat, m: nat)
    requires
        m > 1,
        has_order(x, u, m),
        has_order(y, v, m),
        gcd_nat(u, v) == 1,
    ensures
        has_order((x * y) % m, u * v, m),
{
    let z = (x * y) % m;
    assert(u * v > 0 && v * u == u * v) by (nonlinear_arith)
        requires
            u > 0,
            v > 0,
    ;
    lemma_small_mod(1, m);
    assert(pow_mod(z, u * v, m) == 1) by {
        lemma_pow_mod_product(x, y, u * v, m);
        lemma_pow_mod_mul(x, u, v, m);
        lemma_pow_mod_of_one(v, m);
        lemma_pow_mod_mul(y, v, u, m);
        lemma_pow_mod_of_one(u, m);
        assert(1 * 1 == 1);
    }
    lemma_coprime_symmetric(u, v);
    assert forall|e: nat| 0 < e < u * v implies #[trigger] pow_mod(z, e, m) != 1 by {
        if pow_mod(z, e, m) == 1 {
            // the power u kills x, so v divides e * u, hence e
            assert(e % v == 0) by {
                lemma_pow_mod_mul(z, e, u, m);
                lemma_pow_mod_of_one(u, m);
                lemma_pow_mod_product(x, y, e * u, m);
                assert(e * u == u * e) by (nonlinear_arith);
                lemma_pow_mod_mul(x, u, e, m);
                lemma_pow_mod_of_one(e, m);
                let yy = pow_mod(y, e * u, m);
                assert(1 * yy == yy);
                lemma_small_mod(yy, m);
                lemma_order_divides(y, v, m, e * u);
                lemma_gauss(v, u, e);
            }
            assert(e % u == 0) by {
                lemma_pow_mod_mul(z, e, v, m);
                lemma_pow_mod_of_one(v, m);
                lemma_pow_mod_product(x, y, e * v, m);
                assert(e * v == v * e) by (nonlinear_arith);
                lemma_pow_mod_mul(y, v, e, m);
                lemma_pow_mod_of_one(e, m);
                let xx = pow_mod(x, e * v, m);
                assert(xx * 1 == xx);
                lemma_small_mod(xx, m);
                lemma_order_divides(x, u, m, e * v);
                lemma_gauss(u, v, e);
            }
            lemma_mod_zero_is_multiple(e as int, v as int);
            let k = e / v;
            assert(e == v * k);
            lemma_gauss(u, v, k);
            lemma_mod_zero_is_multiple(k as int, u as int);
            let j = k / u;
            assert(e >= u * v) by (nonlinear_arith)
                requires
                    e == v * k,
                    k == u * j,
                    e > 0,
                    u > 0,
                    v > 0,
                    j >= 0,
            ;
        }
    }
}

/// A prime that divides a power of a prime is that prime.
pub proof fn lemma_prime_divides_power(r: nat, q: nat, e: nat)
    requires
        is_prime(r),
        is_prime(q),
        pow(q as int, e) % (r as int) == 0,
    ensures
        r == q,
    decreases e,
{
    reveal(pow);
    if e == 0 {
        lemma_small_mod(1, r);
    } else {
        let lower = pow(q as int, (e - 1) as nat);
        lemma_pow_nat(q, (e - 1) as nat);
        lemma_euclid(r, q, lower as nat);
        if q % r == 0 {
            if r < q {
                assert(q % r != 0);
            }
            if r > q {
                lemma_small_mod(q, r);
            }
        } else {
            lemma_prime_divides_power(r, q, (e - 1) as nat);
        }
    }
}

/// A power of a prime is coprime to what the prime does not divide.
pub proof fn lemma_prime_power_coprime(q: nat, e: nat, rest: nat)
    requires
        is_prime(q),
        rest >= 1,
        rest % q != 0,
    ensures
        gcd_nat(pow(q as int, e) as nat, rest) == 1,
{
    let big = pow(q as int, e) as nat;
    lemma_pow_nat(q, e);
    lemma_gcd_nat_is_greatest(big, rest);
    let g = gcd_nat(big, rest);
    if g > 1 {
        let r = lemma_prime_factor(g);
        lemma_divides_transitive(r, g, big);
        lemma_divides_transitive(r, g, rest);
        lemma_prime_divides_power(r, q, e);
    }
}

/// A prime power that divides a power of the same prime times what the
/// prime does not divide has the smaller exponent.
pub proof fn lemma_exponent_bound(q: nat, e: nat, r: nat, f: nat, c: nat)
    requires
        q >= 2,
        c % q != 0,
        r >= 1,
        c >= 1,
        pow(q as int, e) * r == pow(q as int, f) * c,
    ensures
        e <= f,
    decreases f,
{
    reveal(pow);
    if e > 0 {
        let le = pow(q as int, (e - 1) as nat);
        lemma_pow_nat(q, (e - 1) as nat);
        if f == 0 {
            assert(c == (le * r) * q) by (nonlinear_arith)
                requires
                    (q * le) * r == 1 * c,
            ;
            lemma_multiple_mod(le * r, q as int);
        } else {
            let lf = pow(q as int, (f - 1) as nat);
            assert(le * r == lf * c) by (nonlinear_arith)
                requires
                    (q * le) * r == (q * lf) * c,
                    q >= 2,
            ;
            lemma_exponent_bound(q, (e - 1) as nat, r, (f - 1) as nat, c);
        }
    }
}

/// Modulo a prime `p`, some residue from 1 on is not taken to 1 by a
/// positive exponent below `p - 1`; it is returned.
pub proof fn lemma_some_unit_escapes(p: nat, d: nat) -> (a: nat)
    requires
        is_prime(p),
        1 <= d < p - 1,
    ensures
        1 <= a < p,
        pow_mod(a, d, p) != 1,
{
    let units = Seq::new((p - 1) as nat, |i: int| (i + 1) as nat);
    if forall|i: int| 0 <= i < units.len() ==> pow_mod(#[trigger] units[i], d, p) == 1 {
        lemma_unity_root_bound(p, d, units);
        assert(false);
        1
    } else {
        let i = choose|i: int| 0 <= i < units.len() && pow_mod(#[trigger] units[i], d, p) != 1;
        units[i]
    }
}

/// Modulo a prime `p`, every divisor of `p - 1` is the order of some
/// residue, which is returned.
pub proof fn lemma_element_of_order(p: nat, m: nat) -> (z: nat)
    requires
        is_prime(p),
        m >= 1,
        (p - 1) % (m as int) == 0,
    ensures
        1 <= z < p,
        has_order(z, m, p),
    decreases m,
{
    let n = (p - 1) as nat;
    if m == 1 {
        lemma_pow_mod_of_one(1, p);
        return 1;
    }
    let q = lemma_prime_factor(m);
    let (e, rest) = lemma_split_prime_power(m, q);
    let qe = pow(q as int, e) as nat;
    lemma_pow_nat(q, e);
    assert(m == qe * rest);
    assert(rest < m) by (nonlinear_arith)
        requires
            m == qe * rest,
            qe >= 2,
            rest >= 1,
    ;
    // an element of order `rest`
    lemma_multiple_mod(qe as int, rest as int);
    assert(divides(rest, m));
    assert(divides(m, n));
    lemma_divides_transitive(rest, m, n);
    let y = lemma_element_of_order(p, rest);
    // an element of the order that is the full power of q in n
    lemma_divides_transitive(q, m, n);
    let (f, cofactor) = lemma_split_prime_power(n, q);
    let qf = pow(q as int, f) as nat;
    let qf1 = pow(q as int, (f - 1) as nat) as nat;
    lemma_pow_nat(q, f);
    lemma_pow_nat(q, (f - 1) as nat);
    assert(qf == q * qf1) by {
        reveal(pow);
    }
    let below = qf1 * cofactor;
    assert(n == q * below) by (nonlinear_arith)
        requires
            n == qf * cofactor,
            qf == q * qf1,
            below == qf1 * cofactor,
    ;
    assert(1 <= below < n) by (nonlinear_arith)
        requires
            n == q * below,
            q >= 2,
            n >= 1,
    ;
    let a = lemma_some_unit_escapes(p, below);
    lemma_small_mod(a, p);
    lemma_fermat(p, a);
    let x1 = pow_mod(a, cofactor, p);
    assert(pow_mod(x1, qf, p) == 1) by {
        lemma_pow_mod_mul(a, cofactor, qf, p);
        assert(cofactor * qf == n) by (nonlinear_arith)
            requires
                n == qf * cofactor,
        ;
    }
    assert(pow_mod(x1, qf1, p) != 1) by {
        lemma_pow_mod_mul(a, cofactor, qf1, p);
        assert(cofactor * qf1 == below) by (nonlinear_arith)
            requires
                below == qf1 * cofactor,
        ;
    }
    lemma_prime_power_order(x1, q, f, p);
    // cut it down to the order that is the power of q in m
    lemma_mod_zero_is_multiple(n as int, m as int);
    let k = n / m;
    assert(qe * (rest * k) == qf * cofactor) by (nonlinear_arith)
        requires
            n == m * k,
            m == qe * rest,
            n == qf * cofactor,
    ;
    assert(rest * k >= 1) by (nonlinear_arith)
        requires
            n == m * k,
            m == qe * rest,
            n >= 1,
            rest >= 1,
            k >= 0,
    ;
    lemma_exponent_bound(q, e, rest * k, f, cofactor);
    let gap = (f - e) as nat;
    let s = pow(q as int, gap) as nat;
    lemma_pow_nat(q, gap);
    lemma_pow_adds(q as int, e, gap);
    assert(qe * s == qf);
    let x = pow_mod(x1, s, p);
    lemma_order_of_power(x1, qe, s, p);
    // multiply the two
    lemma_prime_power_coprime(q, e, rest);
    lemma_order_of_product(x, qe, y, rest, p);
    let z = (x * y) % p;
    if z == 0 {
        lemma_pow_mod_of_zero(m, p);
    }
    z
}

/// Every prime has a primitive root among `1, .., p - 1`; one is returned.
pub proof fn lemma_primitive_root_exists(p: nat) -> (g: nat)
    requires
        is_prime(p),
    ensures
        1 <= g < p,
        is_primitive_root(g, p),
{
    lemma_mod_self_0((p - 1) as int);
    lemma_element_of_order(p, (p - 1) as nat)
}

/// Modulo a prime `p`, every residue from 1 on is a power of a primitive
/// root, with an exponent from 1 to `p - 1`, which is returned.
pub proof fn lemma_generator_reaches(p: nat, g: nat, a: nat) -> (k: nat)
    requires
        is_prime(p),
        is_primitive_root(g, p),
        1 <= a < p,
    ensures
        1 <= k <= p - 1,
        pow_mod(g, k, p) == a,
{
    let n = (p - 1) as nat;
    let powers = Seq::new(n, |i: int| pow_mod(g, (i + 1) as nat, p));
    if exists|i: int| 0 <= i < n && #[trigger] powers[i] == a {
        let i = choose|i: int| 0 <= i < n && #[trigger] powers[i] == a;
        (i + 1) as nat
    } else {
        let all = powers.push(a);
        assert forall|i: int| 0 <= i < all.len() implies pow_mod(#[trigger] all[i], n, p)
            == 1 by {
            if i < n {
                let k = (i + 1) as nat;
                lemma_pow_mod_mul(g, k, n, p);
                lemma_pow_mod_mul(g, n, k, p);
                assert(k * n == n * k) by (nonlinear_arith);
                lemma_pow_mod_of_one(k, p);
            } else {
                lemma_small_mod(a, p);
                lemma_fermat(p, a);
            }
        }
        assert forall|i: int, j: int| 0 <= i < j < all.len() implies all[i] != all[j] by {
            if j < n {
                lemma_powers_differ(g, n, p, (i + 1) as nat, (j + 1) as nat);
            } else {
                assert(powers[i] != a);
            }
        }
        lemma_unity_root_bound(p, n, all);
        assert(false);
        1
    }
}

} // verus!
