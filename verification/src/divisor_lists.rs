//! Lists of divisors: those of `p - 1` as the outside world supplies them,
//! and those of `p * (p - 1)` built from them.
use crate::arith::divides;
use crate::euclid::{
    lemma_divisor_bound, lemma_gauss, lemma_mod_zero_is_multiple, lemma_multiple_mod,
    lemma_prime_coprime,
};
use crate::primes::is_prime;
use crate::roots::nats;
use vstd::prelude::*;

verus! {

/// `d` divides `n` and lies strictly between 1 and `n`.
pub open spec fn is_strict_divisor(d: nat, n: nat) -> bool {
    1 < d < n && n % d == 0
}

/// The divisors `d` of `n` with `1 < d < bound`, in ascending order.
pub open spec fn divisors_below(n: nat, bound: nat) -> Seq<nat>
    decreases bound,
{
    if bound <= 2 {
        Seq::empty()
    } else {
        let d = (bound - 1) as nat;
        let before = divisors_below(n, d);
        if n % d == 0 {
            before.push(d)
        } else {
            before
        }
    }
}

/// The divisors of `n` strictly between 1 and `n`, in ascending order.
pub open spec fn strict_divisors(n: nat) -> Seq<nat> {
    divisors_below(n, n)
}

/// What the divisor enumeration lists for `n`: the divisors strictly
/// between 1 and `n` in ascending order, except that for 2 it lists 2.
pub open spec fn listed_divisors(n: nat) -> Seq<nat> {
    if n == 2 {
        seq![2nat]
    } else {
        strict_divisors(n)
    }
}

/// The list made of `divs`, then `p` and `p - 1`, then each member of
/// `divs` times `p`. With `divs` the divisors of `p - 1` strictly between 1
/// and `p - 1`, and `p` a prime from 3 on, it holds the divisors of
/// `p * (p - 1)` strictly between 1 and `p * (p - 1)`.
pub open spec fn extended_divisors(p: nat, divs: Seq<nat>) -> Seq<nat> {
    divs + seq![p, (p - 1) as nat] + divs.map_values(|d: nat| d * p)
}

/// `divisors_below` holds exactly the divisors in its range, in strictly
/// ascending order.
pub proof fn lemma_divisors_below(n: nat, bound: nat)
    ensures
        forall|d: nat|
            divisors_below(n, bound).contains(d) <==> 1 < d < bound && #[trigger] (n % d) == 0,
        forall|i: int, j: int|
            0 <= i < j < divisors_below(n, bound).len() ==> divisors_below(n, bound)[i]
                < divisors_below(n, bound)[j],
        forall|i: int|
            0 <= i < divisors_below(n, bound).len() ==> 1 < #[trigger] divisors_below(
                n,
                bound,
            )[i] < bound,
    decreases bound,
{
    let s = divisors_below(n, bound);
    if bound <= 2 {
    } else {
        let top = (bound - 1) as nat;
        let before = divisors_below(n, top);
        lemma_divisors_below(n, top);
        assert forall|d: nat| s.contains(d) <==> 1 < d < bound && #[trigger] (n % d) == 0 by {
            if n % top == 0 {
                assert(s[s.len() - 1] == top);
                if s.contains(d) {
                    let i = choose|i: int| 0 <= i < s.len() && s[i] == d;
                    if i < before.len() {
                        assert(before[i] == d);
                        assert(before.contains(d));
                    }
                }
                if 1 < d < bound && n % d == 0 {
                    if d == top {
                        assert(s[s.len() - 1] == d);
                    } else {
                        assert(before.contains(d));
                        let i = choose|i: int| 0 <= i < before.len() && before[i] == d;
                        assert(s[i] == d);
                    }
                }
            } else {
                if 1 < d < bound && n % d == 0 {
                    assert(d != top);
                }
            }
        }
    }
}

/// The divisors of `n` as `divisors::get_divisors` lists them.
///
/// That function strips the factors 2, then divides by the odd numbers up
/// to a bound above the square root of what is left, and multiplies each
/// new prime power into the divisors found so far. It sorts the list and
/// drops its last member, `n` itself, when the list has more than one
/// member. So every divisor strictly between 1 and `n` comes once, in
/// ascending order; for 2 the list is `[2]`, for 1 and for an odd prime it
/// is empty. On 0 the function does not return, so 0 is left out.
#[verifier::external_body]
pub(crate) fn get_divisors(n: u64) -> (v: Vec<u64>)
    requires
        n >= 1,
    ensures
        nats(v@) == listed_divisors(n as nat),
{
    ::divisors::get_divisors(n)
}

/// Builds the list of divisors of `p * (p - 1)` from the list `divs` of the
/// divisors of `p - 1`: `divs` itself, then `p` and `p - 1`, then each
/// member of `divs` times `p`.
pub fn divisors_of_p_times_p_minus_1(p: u64, divs: &Vec<u64>) -> (all: Vec<u64>)
    requires
        p >= 1,
        forall|i: int| 0 <= i < divs@.len() ==> #[trigger] divs@[i] * p <= u64::MAX,
    ensures
        nats(all@) == extended_divisors(p as nat, nats(divs@)),
{
    let mut all: Vec<u64> = Vec::new();
    let mut i: usize = 0;
    while i < divs.len()
        invariant
            i <= divs.len(),
            all@ == divs@.take(i as int),
        decreases divs.len() - i,
    {
        all.push(divs[i]);
        assert(all@ =~= divs@.take(i + 1));
        i += 1;
    }
    assert(divs@.take(divs@.len() as int) =~= divs@);
    all.push(p);
    all.push(p - 1);
    let ghost head = all@;
    assert(nats(head) =~= nats(divs@) + seq![p as nat, (p - 1) as nat]);
    let mut j: usize = 0;
    while j < divs.len()
        invariant
            j <= divs.len(),
            p >= 1,
            forall|i: int| 0 <= i < divs@.len() ==> #[trigger] divs@[i] * p <= u64::MAX,
            nats(all@) == nats(head) + nats(divs@).map_values(|d: nat| d * (p as nat)).take(
                j as int,
            ),
        decreases divs.len() - j,
    {
        let ghost before = all@;
        let d: u64 = divs[j];
        assert(divs@[j as int] * p <= u64::MAX);
        all.push(d * p);
        assert(nats(all@) =~= nats(before).push((d * p) as nat));
        assert(nats(divs@).map_values(|d: nat| d * (p as nat)).take(j + 1) =~= nats(
            divs@,
        ).map_values(|d: nat| d * (p as nat)).take(j as int).push((d * p) as nat));
        j += 1;
    }
    assert(nats(divs@).map_values(|d: nat| d * (p as nat)).take(divs@.len() as int) =~= nats(
        divs@,
    ).map_values(|d: nat| d * (p as nat)));
    all
}

/// What `extended_divisors` holds: the members of `divs`, `p`, `p - 1`,
/// and the members of `divs` times `p`.
pub proof fn lemma_extended_divisors_members(p: nat, divs: Seq<nat>)
    requires
        p >= 1,
    ensures
        forall|d: nat| #[trigger]
            extended_divisors(p, divs).contains(d) <==> (divs.contains(d) || d == p || d == p - 1
                || exists|e: nat| divs.contains(e) && d == #[trigger] (e * p)),
{
    let mid = seq![p, (p - 1) as nat];
    let scaled = divs.map_values(|d: nat| d * p);
    let all = extended_divisors(p, divs);
    assert(all == divs + mid + scaled);
    assert forall|d: nat| #[trigger]
        all.contains(d) <==> (divs.contains(d) || d == p || d == p - 1 || exists|e: nat|
            divs.contains(e) && d == #[trigger] (e * p)) by {
        if all.contains(d) {
            let i = choose|i: int| 0 <= i < all.len() && all[i] == d;
            if i < divs.len() {
                assert(divs[i] == d);
            } else if i < divs.len() + 2 {
                assert(mid[i - divs.len() as int] == d);
            } else {
                let j = i - divs.len() - 2;
                assert(scaled[j] == d);
                assert(divs.contains(divs[j]));
                assert(d == divs[j] * p);
            }
        }
        if divs.contains(d) {
            let i = choose|i: int| 0 <= i < divs.len() && divs[i] == d;
            assert(all[i] == d);
        }
        if d == p {
            assert(all[divs.len() as int] == mid[0]);
        }
        if d == p - 1 {
            assert(all[divs.len() as int + 1] == mid[1]);
        }
        if exists|e: nat| divs.contains(e) && d == #[trigger] (e * p) {
            let e = choose|e: nat| divs.contains(e) && d == #[trigger] (e * p);
            let j = choose|j: int| 0 <= j < divs.len() && divs[j] == e;
            assert(scaled[j] == d);
            assert(all[divs.len() as int + 2 + j] == scaled[j]);
        }
    }
}

/// The union rule: for a prime `p` from 3 on, the list built from the
/// divisors of `p - 1` strictly between 1 and `p - 1` holds exactly the
/// divisors of `p * (p - 1)` strictly between 1 and `p * (p - 1)`.
pub proof fn lemma_union_rule(p: nat)
    requires
        is_prime(p),
        p >= 3,
    ensures
        forall|d: nat| #[trigger]
            extended_divisors(p, strict_divisors((p - 1) as nat)).contains(d)
                <==> is_strict_divisor(d, (p * (p - 1)) as nat),
        extended_divisors(p, strict_divisors((p - 1) as nat)).to_set() == strict_divisors(
            (p * (p - 1)) as nat,
        ).to_set(),
{
    let n = (p - 1) as nat;
    let big = (p * (p - 1)) as nat;
    let divs = strict_divisors(n);
    let all = extended_divisors(p, divs);
    lemma_divisors_below(n, n);
    lemma_divisors_below(big, big);
    lemma_extended_divisors_members(p, divs);
    assert(big == p * n);
    assert(n < big) by (nonlinear_arith)
        requires
            big == p * n,
            p >= 3,
            n >= 2,
    ;
    assert(p < big) by (nonlinear_arith)
        requires
            big == p * n,
            p >= 3,
            n >= 2,
    ;
    assert forall|d: nat| #[trigger] all.contains(d) <==> is_strict_divisor(d, big) by {
        if all.contains(d) {
            if divs.contains(d) {
                lemma_mod_zero_is_multiple(n as int, d as int);
                let c = (n as int) / (d as int);
                assert(big == (p * c) * d) by (nonlinear_arith)
                    requires
                        big == p * n,
                        n == d * c,
                ;
                lemma_multiple_mod(p * c, d as int);
            } else if d == p {
                lemma_multiple_mod(n as int, p as int);
            } else if d == n {
                lemma_multiple_mod(p as int, n as int);
            } else {
                let e = choose|e: nat| divs.contains(e) && d == #[trigger] (e * p);
                lemma_mod_zero_is_multiple(n as int, e as int);
                let c = (n as int) / (e as int);
                assert(big == c * d) by (nonlinear_arith)
                    requires
                        big == p * n,
                        n == e * c,
                        d == e * p,
                ;
                lemma_multiple_mod(c, d as int);
                assert(1 < d < big) by (nonlinear_arith)
                    requires
                        d == e * p,
                        big == p * n,
                        1 < e < n,
                        p >= 3,
                ;
            }
        }
        if is_strict_divisor(d, big) {
            if d % p == 0 {
                lemma_mod_zero_is_multiple(d as int, p as int);
                let e = d / p;
                lemma_mod_zero_is_multiple(big as int, d as int);
                let c = (big as int) / (d as int);
                assert(n == e * c && 1 <= e < n) by (nonlinear_arith)
                    requires
                        big == p * n,
                        big == d * c,
                        d == p * e,
                        p >= 3,
                        1 < d < big,
                        e >= 0,
                ;
                lemma_multiple_mod(c, e as int);
                assert(d == e * p) by (nonlinear_arith)
                    requires
                        d == p * e,
                ;
                if e != 1 {
                    assert(divs.contains(e));
                }
            } else {
                lemma_prime_coprime(p, d);
                assert((p * n) % d == 0);
                lemma_gauss(d, p, n);
                assert(divides(d, n));
                lemma_divisor_bound(d, n);
                if d != n {
                    assert(divs.contains(d));
                }
            }
        }
    }
    let target = strict_divisors(big);
    assert forall|d: nat| all.to_set().contains(d) <==> target.to_set().contains(d) by {
        assert(all.to_set().contains(d) <==> all.contains(d));
        assert(target.to_set().contains(d) <==> target.contains(d));
    }
    assert(all.to_set() =~= target.to_set());
}

/// The union rule over the lists as they are supplied: for a prime `p`
/// from 5 on, the list built from what is listed for `p - 1` holds, as a
/// set, what is listed for `p * (p - 1)`.
pub proof fn lemma_union_rule_listed(p: nat)
    requires
        is_prime(p),
        p >= 5,
    ensures
        extended_divisors(p, listed_divisors((p - 1) as nat)).to_set() == listed_divisors(
            (p * (p - 1)) as nat,
        ).to_set(),
{
    lemma_union_rule(p);
    assert(p * (p - 1) != 2) by (nonlinear_arith)
        requires
            p >= 5,
    ;
}

} // verus!
