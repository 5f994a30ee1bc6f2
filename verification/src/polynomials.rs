//! Polynomials with integer coefficients modulo a prime: division by a
//! linear factor, and Lagrange's bound on the number of roots.
use crate::arith::pow_mod;
use crate::euclid::{lemma_euclid, lemma_mod_zero_is_multiple, lemma_multiple_mod};
use crate::fermat::lemma_sum_of_multiples;
use crate::primes::is_prime;
use vstd::arithmetic::div_mod::{
    lemma_fundamental_div_mod, lemma_mod_add_multiples_vanish, lemma_mul_mod_noop_general,
    lemma_small_mod,
};
use vstd::arithmetic::power::pow;
use vstd::prelude::*;

verus! {

/// The value at `x` of the polynomial with the coefficients `c`, the
/// constant term first.
pub open spec fn eval(c: Seq<int>, x: int) -> int
    decreases c.len(),
{
    if c.len() == 0 {
        0
    } else {
        c[0] + x * eval(c.drop_first(), x)
    }
}

/// The quotient of the polynomial `c` on division by `x - a`.
pub open spec fn quotient(c: Seq<int>, a: int) -> Seq<int>
    decreases c.len(),
{
    if c.len() <= 1 {
        Seq::empty()
    } else {
        seq![eval(c.drop_first(), a)] + quotient(c.drop_first(), a)
    }
}

/// The coefficients of `x` to the power `d`.
pub open spec fn power_poly(d: nat) -> Seq<int>
    decreases d,
{
    if d == 0 {
        seq![1int]
    } else {
        seq![0int] + power_poly((d - 1) as nat)
    }
}

/// The coefficients of `x` to the power `d`, less 1, for `d` from 1 on.
pub open spec fn unity_poly(d: nat) -> Seq<int> {
    power_poly(d).update(0, -1)
}

/// Euclid's lemma for integers of either sign.
pub proof fn lemma_euclid_int(p: nat, a: int, b: int)
    requires
        is_prime(p),
        (a * b) % (p as int) == 0,
    ensures
        a % (p as int) == 0 || b % (p as int) == 0,
{
    let pi = p as int;
    let ra = (a % pi) as nat;
    let rb = (b % pi) as nat;
    lemma_mul_mod_noop_general(a, b, pi);
    assert((ra * rb) % p == 0);
    lemma_euclid(p, ra, rb);
    lemma_small_mod(ra, p);
    lemma_small_mod(rb, p);
}

/// The difference of two multiples of `n` is a multiple of `n`.
pub proof fn lemma_difference_of_multiples(a: int, b: int, n: int)
    requires
        n > 0,
        a % n == 0,
        b % n == 0,
    ensures
        (a - b) % n == 0,
{
    lemma_mod_zero_is_multiple(b, n);
    assert(-b == (-(b / n)) * n) by (nonlinear_arith)
        requires
            b == n * (b / n),
    ;
    lemma_multiple_mod(-(b / n), n);
    lemma_sum_of_multiples(a, -b, n);
}

/// Two different residues differ by no multiple of the modulus.
pub proof fn lemma_residues_differ(a: int, b: int, n: int)
    requires
        0 <= a < n,
        0 <= b < n,
        a != b,
    ensures
        (b - a) % n != 0,
{
    if b > a {
        lemma_small_mod((b - a) as nat, n as nat);
    } else {
        lemma_mod_add_multiples_vanish(b - a, n);
        lemma_small_mod((n + (b - a)) as nat, n as nat);
    }
}

/// The quotient has one coefficient less, and the same leading one.
pub proof fn lemma_quotient_shape(c: Seq<int>, a: int)
    requires
        c.len() >= 1,
    ensures
        quotient(c, a).len() == c.len() - 1,
        c.len() >= 2 ==> quotient(c, a).last() == c.last(),
    decreases c.len(),
{
    if c.len() >= 2 {
        let rest = c.drop_first();
        lemma_quotient_shape(rest, a);
        let q = quotient(c, a);
        assert(q == seq![eval(rest, a)] + quotient(rest, a));
        if c.len() == 2 {
            assert(rest.drop_first().len() == 0);
            assert(eval(rest.drop_first(), a) == 0);
            assert(eval(rest, a) == rest[0] + a * 0);
            assert(q.last() == eval(rest, a));
        } else {
            assert(q.last() == quotient(rest, a).last());
            assert(rest.last() == c.last());
        }
    }
}

/// Division by a linear factor: the polynomial is `x - a` times its
/// quotient plus its value at `a`.
pub proof fn lemma_division(c: Seq<int>, a: int, x: int)
    ensures
        eval(c, x) == (x - a) * eval(quotient(c, a), x) + eval(c, a),
    decreases c.len(),
{
    if c.len() == 0 {
        assert(eval(quotient(c, a), x) == 0);
        assert((x - a) * 0 == 0);
    } else if c.len() == 1 {
        assert(c.drop_first().len() == 0);
        assert(eval(c.drop_first(), x) == 0);
        assert(eval(c.drop_first(), a) == 0);
        assert(eval(quotient(c, a), x) == 0);
        assert((x - a) * 0 == 0 && x * 0 == 0 && a * 0 == 0);
    } else {
        let rest = c.drop_first();
        let q_rest = quotient(rest, a);
        let q = quotient(c, a);
        lemma_division(rest, a, x);
        let ga = eval(rest, a);
        let gx = eval(rest, x);
        let qx = eval(q_rest, x);
        assert(q == seq![ga] + q_rest);
        assert(q.drop_first() =~= q_rest);
        assert(q[0] == ga);
        assert(eval(q, x) == ga + x * qx);
        assert(c[0] + x * gx == (x - a) * (ga + x * qx) + (c[0] + a * ga)) by (nonlinear_arith)
            requires
                gx == (x - a) * qx + ga,
        ;
    }
}

/// Lagrange's theorem: modulo a prime, a polynomial whose leading
/// coefficient the prime does not divide has no more roots than its degree.
/// The roots are given as a list of different residues.
pub proof fn lemma_root_bound(p: nat, c: Seq<int>, roots: Seq<int>)
    requires
        is_prime(p),
        c.len() >= 1,
        c.last() % (p as int) != 0,
        forall|i: int| 0 <= i < roots.len() ==> 0 <= #[trigger] roots[i] < p,
        forall|i: int, j: int| 0 <= i < j < roots.len() ==> roots[i] != roots[j],
        forall|i: int| 0 <= i < roots.len() ==> eval(c, #[trigger] roots[i]) % (p as int) == 0,
    ensures
        roots.len() <= c.len() - 1,
    decreases c.len(),
{
    let pi = p as int;
    if roots.len() == 0 {
    } else if c.len() == 1 {
        assert(c.drop_first().len() == 0);
        assert(eval(c.drop_first(), roots[0]) == 0);
        assert(roots[0] * 0 == 0);
        assert(eval(c, roots[0]) == c[0]);
        assert(c.last() == c[0]);
    } else {
        let a = roots.last();
        let others = roots.drop_last();
        let q = quotient(c, a);
        lemma_quotient_shape(c, a);
        assert forall|i: int| 0 <= i < others.len() implies eval(q, #[trigger] others[i]) % pi
            == 0 by {
            let b = others[i];
            assert(b == roots[i]);
            assert(roots[i] != roots[roots.len() - 1]);
            lemma_division(c, a, b);
            lemma_difference_of_multiples(eval(c, b), eval(c, a), pi);
            assert((b - a) * eval(q, b) == eval(c, b) - eval(c, a));
            lemma_euclid_int(p, b - a, eval(q, b));
            lemma_residues_differ(a, b, pi);
        }
        lemma_root_bound(p, q, others);
    }
}

/// The value of `power_poly(d)` at `x` is `x` to the power `d`; the
/// polynomial has `d + 1` coefficients, the leading one being 1.
pub proof fn lemma_power_poly(d: nat, x: int)
    ensures
        eval(power_poly(d), x) == pow(x, d),
        power_poly(d).len() == d + 1,
        power_poly(d).last() == 1,
    decreases d,
{
    reveal(pow);
    let c = power_poly(d);
    if d == 0 {
        assert(c.drop_first().len() == 0);
        assert(eval(c.drop_first(), x) == 0);
        assert(x * 0 == 0);
    } else {
        let rest = power_poly((d - 1) as nat);
        lemma_power_poly((d - 1) as nat, x);
        assert(c.drop_first() =~= rest);
        assert(c[0] == 0);
        assert(c.last() == rest.last());
    }
}

/// The value of `unity_poly(d)` at `x` is `x` to the power `d`, less 1.
pub proof fn lemma_unity_poly(d: nat, x: int)
    requires
        d >= 1,
    ensures
        eval(unity_poly(d), x) == pow(x, d) - 1,
        unity_poly(d).len() == d + 1,
        unity_poly(d).last() == 1,
{
    reveal(pow);
    let c = unity_poly(d);
    let rest = power_poly((d - 1) as nat);
    lemma_power_poly(d, x);
    lemma_power_poly((d - 1) as nat, x);
    assert(power_poly(d).drop_first() =~= rest);
    assert(c.drop_first() =~= rest);
    assert(c[0] == -1);
    assert(c.last() == power_poly(d).last());
}

/// Modulo a prime, no more than `d` different residues are taken to 1 by
/// the power `d`, for `d` from 1 on.
pub proof fn lemma_unity_root_bound(p: nat, d: nat, roots: Seq<nat>)
    requires
        is_prime(p),
        d >= 1,
        forall|i: int| 0 <= i < roots.len() ==> #[trigger] roots[i] < p,
        forall|i: int, j: int| 0 <= i < j < roots.len() ==> roots[i] != roots[j],
        forall|i: int| 0 <= i < roots.len() ==> pow_mod(#[trigger] roots[i], d, p) == 1,
    ensures
        roots.len() <= d,
{
    let pi = p as int;
    let c = unity_poly(d);
    let rs = roots.map_values(|r: nat| r as int);
    lemma_unity_poly(d, 0);
    lemma_small_mod(1, p);
    assert forall|i: int| 0 <= i < rs.len() implies eval(c, #[trigger] rs[i]) % pi == 0 by {
        let r = roots[i];
        assert(rs[i] == r as int);
        lemma_unity_poly(d, r as int);
        assert(pow_mod(r, d, p) == 1);
        lemma_fundamental_div_mod(pow(r as int, d), pi);
        let k = pow(r as int, d) / pi;
        assert(pow(r as int, d) - 1 == k * pi) by (nonlinear_arith)
            requires
                pow(r as int, d) == pi * k + 1,
        ;
        lemma_multiple_mod(k, pi);
    }
    assert forall|i: int, j: int| 0 <= i < j < rs.len() implies rs[i] != rs[j] by {
        assert(rs[i] == roots[i] as int);
        assert(rs[j] == roots[j] as int);
    }
    assert forall|i: int| 0 <= i < rs.len() implies 0 <= #[trigger] rs[i] < p by {
        assert(rs[i] == roots[i] as int);
    }
    lemma_root_bound(p, c, rs);
}

} // verus!
