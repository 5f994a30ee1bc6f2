//! Exact modular arithmetic on 64-bit unsigned integers: greatest common
//! divisor, modular exponentiation and the quadratic-residue test.
use crate::primes::is_prime;
use crate::root_laws::lemma_euler_criterion;
use vstd::arithmetic::div_mod::*;
use vstd::arithmetic::power::*;
use vstd::prelude::*;

verus! {

/// `d` divides `n`.
pub open spec fn divides(d: nat, n: nat) -> bool {
    d > 0 && n % d == 0
}

/// The greatest common divisor by Euclid's recursion; `gcd_nat(0, 0)` is 0.
pub open spec fn gcd_nat(a: nat, b: nat) -> nat
    decreases b,
{
    if b == 0 {
        a
    } else {
        gcd_nat(b, a % b)
    }
}

/// The residue of `base` to the power `exp` modulo `modulus`.
pub open spec fn pow_mod(base: nat, exp: nat, modulus: nat) -> nat {
    (pow(base as int, exp) % (modulus as int)) as nat
}

/// Euler's criterion: `n` to the power `(p - 1) / 2` leaves 1 modulo `p`.
pub open spec fn euler_criterion(n: nat, p: nat) -> bool {
    pow_mod(n, ((p - 1) / 2) as nat, p) == 1
}

/// `n` is a nonzero square modulo `p`.
pub open spec fn is_nonzero_square(n: nat, p: nat) -> bool {
    n % p != 0 && exists|x: nat| #[trigger] ((x * x) % p) == n % p
}

/// A divisor of `x` and of `y` divides `x % y`.
pub proof fn lemma_divides_remainder(d: nat, x: nat, y: nat)
    requires
        y > 0,
        divides(d, x),
        divides(d, y),
    ensures
        divides(d, x % y),
{
    let q = (x / y) as int;
    lemma_fundamental_div_mod(x as int, y as int);
    lemma_fundamental_div_mod(x as int, d as int);
    lemma_fundamental_div_mod(y as int, d as int);
    let kx = (x / d) as int;
    let ky = (y / d) as int;
    assert(x % y == d * (kx - ky * q)) by (nonlinear_arith)
        requires
            x == y * q + x % y,
            x == d * kx,
            y == d * ky,
    ;
    lemma_mod_multiples_basic(kx - ky * q, d as int);
    assert(d * (kx - ky * q) == (kx - ky * q) * d) by (nonlinear_arith);
}

/// A divisor of `y` and of `x % y` divides `x`.
pub proof fn lemma_divides_dividend(d: nat, x: nat, y: nat)
    requires
        y > 0,
        divides(d, y),
        divides(d, x % y),
    ensures
        divides(d, x),
{
    let q = (x / y) as int;
    let r = (x % y) as int;
    lemma_fundamental_div_mod(x as int, y as int);
    lemma_fundamental_div_mod(r, d as int);
    lemma_fundamental_div_mod(y as int, d as int);
    let kr = r / (d as int);
    let ky = (y / d) as int;
    assert(x == (ky * q + kr) * d) by (nonlinear_arith)
        requires
            x == y * q + r,
            r == d * kr,
            y == d * ky,
    ;
    lemma_mod_multiples_basic(ky * q + kr, d as int);
}

/// `gcd_nat(a, b)` divides both arguments, and every common divisor of
/// them divides it.
pub proof fn lemma_gcd_nat_is_greatest(a: nat, b: nat)
    requires
        a > 0 || b > 0,
    ensures
        divides(gcd_nat(a, b), a),
        divides(gcd_nat(a, b), b),
        forall|d: nat| divides(d, a) && divides(d, b) ==> #[trigger] divides(d, gcd_nat(a, b)),
    decreases b,
{
    if b == 0 {
        lemma_mod_self_0(a as int);
        assert(0nat % a == 0) by {
            lemma_small_mod(0, a);
        }
    } else {
        let r = a % b;
        lemma_gcd_nat_is_greatest(b, r);
        let g = gcd_nat(b, r);
        lemma_divides_dividend(g, a, b);
        assert forall|d: nat| divides(d, a) && divides(d, b) implies #[trigger] divides(
            d,
            gcd_nat(a, b),
        ) by {
            lemma_divides_remainder(d, a, b);
        }
    }
}

/// The greatest common divisor of `a` and `b`, by Euclid's algorithm.
pub fn gcd(a: u64, b: u64) -> (g: u64)
    ensures
        g == gcd_nat(a as nat, b as nat),
        a == 0 && b == 0 ==> g == 0,
        a > 0 || b > 0 ==> divides(g as nat, a as nat) && divides(g as nat, b as nat),
        forall|d: nat|
            (a > 0 || b > 0) && divides(d, a as nat) && divides(d, b as nat) ==> #[trigger] divides(
                d,
                g as nat,
            ),
{
    let mut x: u64 = a;
    let mut y: u64 = b;
    while y != 0
        invariant
            gcd_nat(x as nat, y as nat) == gcd_nat(a as nat, b as nat),
        decreases y,
    {
        let r: u64 = x % y;
        x = y;
        y = r;
    }
    proof {
        if a > 0 || b > 0 {
            lemma_gcd_nat_is_greatest(a as nat, b as nat);
        }
    }
    x
}

/// One step of square-and-multiply keeps `acc * base^exp` fixed modulo `m`.
proof fn lemma_square_and_multiply(acc: nat, base: nat, exp: nat, m: nat)
    requires
        m > 0,
        exp > 0,
    ensures
        exp % 2 == 1 ==> (((acc * base) % m) * pow(((base * base) % m) as int, exp / 2)) % (
        m as int) == (acc * pow(base as int, exp)) % (m as int),
        exp % 2 == 0 ==> (acc * pow(((base * base) % m) as int, exp / 2)) % (m as int) == (acc
            * pow(base as int, exp)) % (m as int),
{
    let mi = m as int;
    let b = base as int;
    let h = exp / 2;
    let sq = pow(b * b, h);
    let sq_red = pow(((base * base) % m) as int, h);
    // pow(b * b, h) == pow(b, 2 * h)
    lemma_square_is_pow2(b);
    lemma_pow_multiplies(b, 2, h);
    assert(sq == pow(b, 2 * h));
    // reducing the base of a power does not change its residue
    lemma_pow_mod_noop(b * b, h, mi);
    assert(sq_red % mi == sq % mi);
    if exp % 2 == 1 {
        assert(exp == 2 * h + 1);
        lemma_pow_adds(b, 2 * h, 1);
        lemma_pow1(b);
        assert(pow(b, exp) == sq * b);
        let ab = (acc * base) as int;
        lemma_mul_mod_noop_general(ab, sq_red, mi);
        lemma_mul_mod_noop_general(ab, sq, mi);
        assert(((ab % mi) * sq_red) % mi == (ab * sq) % mi);
        assert(ab * sq == acc * (sq * b)) by (nonlinear_arith)
            requires
                ab == acc * b,
        ;
    } else {
        assert(exp == 2 * h);
        lemma_mul_mod_noop_general(acc as int, sq_red, mi);
        lemma_mul_mod_noop_general(acc as int, sq, mi);
    }
}

/// `base` to the power `exp` modulo `modulus`, by repeated squaring.
pub fn mod_pow(base: u64, exp: u64, modulus: u64) -> (r: u64)
    requires
        modulus > 0,
    ensures
        r == pow_mod(base as nat, exp as nat, modulus as nat),
        r < modulus,
{
    let m: u128 = modulus as u128;
    let mut acc: u128 = 1 % m;
    let mut b: u128 = (base as u128) % m;
    let mut e: u64 = exp;
    proof {
        lemma_pow_mod_noop(base as int, exp as nat, m as int);
        lemma_mul_mod_noop_general(1, pow(b as int, exp as nat), m as int);
    }
    while e > 0
        invariant
            m == modulus,
            m > 0,
            acc < m,
            b < m,
            (acc * pow(b as int, e as nat)) % (m as int) == pow(base as int, exp as nat) % (
            m as int),
        decreases e,
    {
        proof {
            lemma_square_and_multiply(acc as nat, b as nat, e as nat, m as nat);
            assert(acc * b <= m * m) by (nonlinear_arith)
                requires
                    acc < m,
                    b < m,
            ;
            assert(b * b <= m * m) by (nonlinear_arith)
                requires
                    b < m,
            ;
            assert(m * m <= 0xffff_ffff_ffff_ffff * 0xffff_ffff_ffff_ffff) by (nonlinear_arith)
                requires
                    m <= 0xffff_ffff_ffff_ffff,
            ;
        }
        if e % 2 == 1 {
            acc = (acc * b) % m;
        }
        b = (b * b) % m;
        e = e / 2;
    }
    proof {
        lemma_pow0(b as int);
        lemma_small_mod(acc as nat, m as nat);
    }
    acc as u64
}

/// Whether `n` is a nonzero quadratic residue modulo the odd prime `p`, by
/// Euler's criterion: whether `n` to the power `(p - 1) / 2` leaves 1
/// modulo `p`. For a `p` that is no odd prime, the result is that of the
/// criterion.
pub fn is_quadratic_residue(n: u64, p: u64) -> (r: bool)
    requires
        p > 0,
    ensures
        r == euler_criterion(n as nat, p as nat),
        is_prime(p as nat) && p > 2 ==> r == is_nonzero_square(n as nat, p as nat),
{
    proof {
        if is_prime(p as nat) && p > 2 {
            lemma_euler_criterion(p as nat, n as nat);
        }
    }
    mod_pow(n, (p - 1) / 2, p) == 1
}

} // verus!
