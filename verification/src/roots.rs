//! Primitive roots of a prime: the search for a first one, the derivation of
//! the others from it, and the test whether one lifts to the square of the
//! prime.
use crate::arith::{euler_criterion, gcd, gcd_nat, is_quadratic_residue, mod_pow, pow_mod};
use crate::orders::{is_primitive_root, is_primitive_root_of_square};
use crate::primes::is_prime;
use crate::root_laws::{
    covers_strict_divisors, lemma_all_prs_are_primitive_roots,
    lemma_first_generator_is_primitive_root, lemma_generator_powers_complete, lemma_lift_test,
    lemma_no_generator_for_3, lemma_search_is_owed, lists_strict_divisors,
};
use vstd::arithmetic::power::*;
use vstd::prelude::*;

verus! {

/// Why a search for a primitive root gave none.
#[derive(Clone, Copy, Debug, PartialEq, Eq, Structural)]
pub enum SearchError {
    /// The modulus is even, so it is no odd prime.
    InvalidInput,
    /// No candidate of the search order passed the order test. For 3 that
    /// is always so, as its search order is empty; for a prime above 3 and
    /// exponents strictly between 0 and `p - 1` it is never so.
    NoGenerator,
}

/// The values of a sequence of machine integers as natural numbers.
pub open spec fn nats(s: Seq<u64>) -> Seq<nat> {
    s.map_values(|x: u64| x as nat)
}

/// No exponent of `exps` takes `n` to 1 modulo `modulus`.
pub open spec fn avoids_one(n: nat, exps: Seq<nat>, modulus: nat) -> bool {
    forall|i: int| 0 <= i < exps.len() ==> pow_mod(n, #[trigger] exps[i], modulus) != 1
}

/// The order test of the search: `n` fails Euler's criterion for `p`, and
/// none of the exponents `divs` takes it to 1 modulo `p`.
pub open spec fn is_generator_candidate(n: nat, p: nat, divs: Seq<nat>) -> bool {
    !euler_criterion(n, p) && avoids_one(n, divs, p)
}

/// The integers from `lo` up to `hi - 1`.
pub open spec fn ascending(lo: nat, hi: nat) -> Seq<nat> {
    Seq::new(
        if hi > lo {
            (hi - lo) as nat
        } else {
            0
        },
        |i: int| (lo + i) as nat,
    )
}

/// The integers from `hi - 1` down to `lo`.
pub open spec fn descending(lo: nat, hi: nat) -> Seq<nat> {
    Seq::new(
        if hi > lo {
            (hi - lo) as nat
        } else {
            0
        },
        |i: int| (hi - 1 - i) as nat,
    )
}

/// The order in which the candidates for a primitive root of an odd `p` are
/// tried. It depends on `p` modulo 8 and is meant to meet quadratic
/// non-residues early; for an even `p` it is empty.
pub open spec fn search_order(p: nat) -> Seq<nat> {
    let third = p / 3;
    if p % 8 == 1 {
        seq![2nat] + ascending(third, (p - 1) as nat) + ascending(3, third)
    } else if p % 8 == 3 {
        descending(2, (p - 1) as nat)
    } else if p % 8 == 5 {
        ascending(third, (p - 1) as nat) + ascending(2, third)
    } else if p % 8 == 7 {
        seq![2nat] + descending(3, (p - 2) as nat)
    } else {
        Seq::empty()
    }
}

/// The first member of `order` that passes the order test, if there is one.
pub open spec fn first_candidate(order: Seq<nat>, p: nat, divs: Seq<nat>) -> Option<nat>
    decreases order.len(),
{
    if order.len() == 0 {
        None
    } else if is_generator_candidate(order[0], p, divs) {
        Some(order[0])
    } else {
        first_candidate(order.drop_first(), p, divs)
    }
}

/// The first candidate in the search order of `p` that passes the order
/// test against `divs`.
pub open spec fn first_generator(p: nat, divs: Seq<nat>) -> Option<nat> {
    first_candidate(search_order(p), p, divs)
}

/// What `first_candidate` returns sits in the sequence, passes the test, and
/// nothing before it does; it returns nothing only if no member passes.
pub proof fn lemma_first_candidate(order: Seq<nat>, p: nat, divs: Seq<nat>)
    ensures
        match first_candidate(order, p, divs) {
            Some(n) => exists|i: int|
                0 <= i < order.len() && #[trigger] order[i] == n && is_generator_candidate(
                    n,
                    p,
                    divs,
                ) && forall|j: int| 0 <= j < i ==> !is_generator_candidate(order[j], p, divs),
            None => forall|i: int|
                0 <= i < order.len() ==> !is_generator_candidate(#[trigger] order[i], p, divs),
        },
    decreases order.len(),
{
    if order.len() == 0 {
    } else if is_generator_candidate(order[0], p, divs) {
        assert(order[0] == order[0]);
    } else {
        let rest = order.drop_first();
        lemma_first_candidate(rest, p, divs);
        match first_candidate(rest, p, divs) {
            Some(n) => {
                let i = choose|i: int|
                    0 <= i < rest.len() && #[trigger] rest[i] == n && is_generator_candidate(
                        n,
                        p,
                        divs,
                    ) && forall|j: int| 0 <= j < i ==> !is_generator_candidate(rest[j], p, divs);
                assert(order[i + 1] == n);
                assert forall|j: int| 0 <= j < i + 1 implies !is_generator_candidate(
                    order[j],
                    p,
                    divs,
                ) by {
                    if j > 0 {
                        assert(order[j] == rest[j - 1]);
                    }
                }
            },
            None => {
                assert forall|i: int| 0 <= i < order.len() implies !is_generator_candidate(
                    #[trigger] order[i],
                    p,
                    divs,
                ) by {
                    if i > 0 {
                        assert(order[i] == rest[i - 1]);
                    }
                }
            },
        }
    }
}

/// The search through two sequences on end is the search through the first
/// and, where that finds nothing, through the second.
pub proof fn lemma_first_candidate_concat(a: Seq<nat>, b: Seq<nat>, p: nat, divs: Seq<nat>)
    ensures
        first_candidate(a + b, p, divs) == if first_candidate(a, p, divs) is Some {
            first_candidate(a, p, divs)
        } else {
            first_candidate(b, p, divs)
        },
    decreases a.len(),
{
    if a.len() == 0 {
        assert(a + b =~= b);
    } else {
        assert((a + b)[0] == a[0]);
        assert((a + b).drop_first() =~= a.drop_first() + b);
        lemma_first_candidate_concat(a.drop_first(), b, p, divs);
    }
}

/// Whether no exponent of `exps` takes `n` to 1 modulo `modulus`.
pub fn powers_avoid_one(n: u64, exps: &Vec<u64>, modulus: u64) -> (r: bool)
    requires
        modulus > 0,
    ensures
        r == avoids_one(n as nat, nats(exps@), modulus as nat),
{
    let mut i: usize = 0;
    while i < exps.len()
        invariant
            i <= exps.len(),
            modulus > 0,
            forall|j: int| 0 <= j < i ==> pow_mod(n as nat, #[trigger] nats(exps@)[j], modulus as nat) != 1,
        decreases exps.len() - i,
    {
        if mod_pow(n, exps[i], modulus) == 1 {
            assert(nats(exps@)[i as int] == exps@[i as int] as nat);
            return false;
        }
        assert(nats(exps@)[i as int] == exps@[i as int] as nat);
        i += 1;
    }
    true
}

/// Whether `n` passes the order test for `p` against the exponents `divs`.
pub fn passes_order_test(n: u64, p: u64, divs: &Vec<u64>) -> (r: bool)
    requires
        p > 0,
    ensures
        r == is_generator_candidate(n as nat, p as nat, nats(divs@)),
{
    !is_quadratic_residue(n, p) && powers_avoid_one(n, divs, p)
}

/// The first of `lo`, `lo + 1`, .., `hi - 1` that passes the order test.
fn first_passing_up(p: u64, divs: &Vec<u64>, lo: u64, hi: u64) -> (r: Option<u64>)
    requires
        p > 0,
    ensures
        match r {
            Some(n) => first_candidate(ascending(lo as nat, hi as nat), p as nat, nats(divs@))
                == Some(n as nat),
            None => first_candidate(ascending(lo as nat, hi as nat), p as nat, nats(divs@))
                is None,
        },
{
    let mut n: u64 = lo;
    while n < hi
        invariant
            p > 0,
            first_candidate(ascending(lo as nat, hi as nat), p as nat, nats(divs@))
                == first_candidate(ascending(n as nat, hi as nat), p as nat, nats(divs@)),
        decreases hi - n,
    {
        if passes_order_test(n, p, divs) {
            assert(ascending(n as nat, hi as nat)[0] == n as nat);
            return Some(n);
        }
        assert(ascending(n as nat, hi as nat)[0] == n as nat);
        assert(ascending(n as nat, hi as nat).drop_first() =~= ascending(
            (n + 1) as nat,
            hi as nat,
        ));
        n += 1;
    }
    None
}

/// The first of `hi - 1`, `hi - 2`, .., `lo` that passes the order test.
fn first_passing_down(p: u64, divs: &Vec<u64>, lo: u64, hi: u64) -> (r: Option<u64>)
    requires
        p > 0,
    ensures
        match r {
            Some(n) => first_candidate(descending(lo as nat, hi as nat), p as nat, nats(divs@))
                == Some(n as nat),
            None => first_candidate(descending(lo as nat, hi as nat), p as nat, nats(divs@))
                is None,
        },
{
    let mut n: u64 = hi;
    while n > lo
        invariant
            p > 0,
            first_candidate(descending(lo as nat, hi as nat), p as nat, nats(divs@))
                == first_candidate(descending(lo as nat, n as nat), p as nat, nats(divs@)),
        decreases n,
    {
        let ghost above = n as nat;
        n -= 1;
        assert(descending(lo as nat, above)[0] == n as nat);
        assert(descending(lo as nat, above).drop_first() =~= descending(lo as nat, n as nat));
        if passes_order_test(n, p, divs) {
            return Some(n);
        }
    }
    None
}

/// The search through a single candidate.
proof fn lemma_first_candidate_single(n: nat, p: nat, divs: Seq<nat>)
    ensures
        first_candidate(seq![n], p, divs) == if is_generator_candidate(n, p, divs) {
            Some(n)
        } else {
            None
        },
{
    assert(seq![n][0] == n);
    assert(seq![n].drop_first() =~= Seq::<nat>::empty());
    assert(first_candidate(Seq::<nat>::empty(), p, divs) is None);
}

/// Every candidate of an odd `p` from 3 on lies in `[1, p - 1)`.
pub proof fn lemma_search_order_range(p: nat)
    requires
        p % 2 == 1,
        p >= 3,
    ensures
        forall|i: int|
            0 <= i < search_order(p).len() ==> 1 <= #[trigger] search_order(p)[i] < p - 1,
{
    let third = p / 3;
    assert forall|i: int| 0 <= i < search_order(p).len() implies 1 <= #[trigger] search_order(
        p,
    )[i] < p - 1 by {
        if p % 8 == 1 {
            assert(p >= 9);
        } else if p % 8 == 3 {
        } else if p % 8 == 5 {
            assert(p >= 5);
        } else {
            assert(p % 8 == 7);
        }
    }
}

/// 1 never passes the order test of a modulus above 1.
pub proof fn lemma_one_is_no_candidate(p: nat, divs: Seq<nat>)
    requires
        p > 1,
    ensures
        !is_generator_candidate(1, p, divs),
{
    lemma1_pow(((p - 1) / 2) as nat);
    vstd::arithmetic::div_mod::lemma_small_mod(1, p);
}

/// Finds a primitive root of the prime `p`, given the divisors `divs` of
/// `p - 1` that lie strictly between 1 and `p - 1`.
///
/// The candidates are tried in the order `search_order(p)`, and the first
/// one that passes the order test against `divs` is returned. An even `p`
/// is refused as `InvalidInput`. When no candidate passes, the answer is
/// `NoGenerator`.
///
/// For a prime above 3 and exponents strictly between 0 and `p - 1` the
/// search succeeds. For a prime with at least the divisors of `p - 1`
/// strictly between 1 and `p - 1` among the exponents, what it returns is
/// a primitive root of `p`.
pub fn find_first_pr(p: u64, divs: &Vec<u64>) -> (r: Result<u64, SearchError>)
    ensures
        match r {
            Ok(n) => p % 2 == 1 && first_generator(p as nat, nats(divs@)) == Some(n as nat),
            Err(SearchError::InvalidInput) => p % 2 == 0,
            Err(SearchError::NoGenerator) => p % 2 == 1 && first_generator(
                p as nat,
                nats(divs@),
            ) is None,
        },
        r matches Ok(n) ==> p == 1 || 2 <= n < p - 1,
        is_prime(p as nat) && p > 3 && (forall|i: int|
            0 <= i < divs@.len() ==> 0 < #[trigger] divs@[i] < p - 1) ==> r is Ok,
        is_prime(p as nat) && covers_strict_divisors(nats(divs@), (p - 1) as nat) ==> (r matches Ok(
            n,
        ) ==> is_primitive_root(n as nat, p as nat)),
{
    proof {
        if is_prime(p as nat) && p > 3 && (forall|i: int|
            0 <= i < divs@.len() ==> 0 < #[trigger] divs@[i] < p - 1) {
            assert(p % 2 != 0);
            assert forall|i: int| 0 <= i < nats(divs@).len() implies 0 < #[trigger] nats(
                divs@,
            )[i] < p - 1 by {
                assert(nats(divs@)[i] == divs@[i] as nat);
            }
            lemma_search_is_owed(p as nat, nats(divs@));
        }
        if p % 2 == 1 && is_prime(p as nat) && covers_strict_divisors(
            nats(divs@),
            (p - 1) as nat,
        ) {
            if let Some(n) = first_generator(p as nat, nats(divs@)) {
                lemma_first_generator_is_primitive_root(p as nat, nats(divs@), n);
            }
        }
    }
    let residue: u64 = p % 8;
    let ghost order = search_order(p as nat);
    let ghost pn = p as nat;
    let ghost ds = nats(divs@);
    let found: Option<u64> = if residue == 1 {
        let third: u64 = p / 3;
        proof {
            let head = seq![2nat];
            let mid = ascending(third as nat, (p - 1) as nat);
            let last = ascending(3, third as nat);
            lemma_first_candidate_single(2, pn, ds);
            lemma_first_candidate_concat(head, mid, pn, ds);
            lemma_first_candidate_concat(head + mid, last, pn, ds);
        }
        if passes_order_test(2, p, divs) {
            Some(2)
        } else {
            match first_passing_up(p, divs, third, p - 1) {
                Some(n) => Some(n),
                None => first_passing_up(p, divs, 3, third),
            }
        }
    } else if residue == 3 {
        first_passing_down(p, divs, 2, p - 1)
    } else if residue == 5 {
        let third: u64 = p / 3;
        proof {
            lemma_first_candidate_concat(
                ascending(third as nat, (p - 1) as nat),
                ascending(2, third as nat),
                pn,
                ds,
            );
        }
        match first_passing_up(p, divs, third, p - 1) {
            Some(n) => Some(n),
            None => first_passing_up(p, divs, 2, third),
        }
    } else if residue == 7 {
        proof {
            lemma_first_candidate_single(2, pn, ds);
            lemma_first_candidate_concat(seq![2nat], descending(3, (p - 2) as nat), pn, ds);
        }
        if passes_order_test(2, p, divs) {
            Some(2)
        } else {
            first_passing_down(p, divs, 3, p - 2)
        }
    } else {
        return Err(SearchError::InvalidInput);
    };
    match found {
        Some(n) => {
            proof {
                if p != 1 {
                    lemma_first_candidate(order, pn, ds);
                    lemma_search_order_range(pn);
                    lemma_one_is_no_candidate(pn, ds);
                }
            }
            Ok(n)
        },
        None => Err(SearchError::NoGenerator),
    }
}

/// The exponents `k` with `1 <= k < bound` that are coprime to `n`, in
/// ascending order.
pub open spec fn coprime_exponents(n: nat, bound: nat) -> Seq<nat>
    decreases bound,
{
    if bound <= 1 {
        Seq::empty()
    } else {
        let k = (bound - 1) as nat;
        let before = coprime_exponents(n, k);
        if gcd_nat(k, n) == 1 {
            before.push(k)
        } else {
            before
        }
    }
}

/// Euler's totient: how many of `1, .., n` are coprime to `n`.
pub open spec fn totient(n: nat) -> nat {
    coprime_exponents(n, n + 1).len()
}

/// The residues modulo `p` of the powers of `g` whose exponents are the
/// members of `[1, p)` coprime to `p - 1`, in the order of the exponents.
pub open spec fn generator_powers(g: nat, p: nat) -> Seq<nat> {
    coprime_exponents((p - 1) as nat, p).map_values(|k: nat| pow_mod(g, k, p))
}

/// Finds all primitive roots of the prime `p`, given the divisors `divs` of
/// `p - 1` that lie strictly between 1 and `p - 1`.
///
/// With `g` the root that `find_first_pr` finds, the result holds `g` to
/// the power `k` modulo `p` for every `k` of `[1, p)` coprime to `p - 1`,
/// in ascending order of `k`: as many values as Euler's totient of `p - 1`
/// says. It fails where `find_first_pr` fails, so not for a prime above 3
/// and exponents strictly between 0 and `p - 1`.
///
/// For a prime with at least the divisors of `p - 1` strictly between 1
/// and `p - 1` among the exponents, the values differ from each other and
/// are the primitive roots of `p` below `p`, all of them.
pub fn find_all_prs(p: u64, divs: &Vec<u64>) -> (r: Result<Vec<u64>, SearchError>)
    ensures
        match r {
            Ok(v) => p % 2 == 1 && match first_generator(p as nat, nats(divs@)) {
                Some(g) => nats(v@) == generator_powers(g, p as nat),
                None => false,
            },
            Err(SearchError::InvalidInput) => p % 2 == 0,
            Err(SearchError::NoGenerator) => p % 2 == 1 && first_generator(
                p as nat,
                nats(divs@),
            ) is None,
        },
        r matches Ok(v) ==> v@.len() == totient((p - 1) as nat),
        is_prime(p as nat) && p > 3 && (forall|i: int|
            0 <= i < divs@.len() ==> 0 < #[trigger] divs@[i] < p - 1) ==> r is Ok,
        is_prime(p as nat) && covers_strict_divisors(nats(divs@), (p - 1) as nat) ==> (r matches Ok(
            v,
        ) ==> nats(v@).no_duplicates() && forall|x: nat| #[trigger]
            nats(v@).contains(x) <==> x < p && is_primitive_root(x, p as nat)),
{
    proof {
        if p % 2 == 1 && is_prime(p as nat) && covers_strict_divisors(
            nats(divs@),
            (p - 1) as nat,
        ) {
            if let Some(g) = first_generator(p as nat, nats(divs@)) {
                lemma_no_generator_for_3(nats(divs@));
                lemma_first_generator_is_primitive_root(p as nat, nats(divs@), g);
                lemma_all_prs_are_primitive_roots(p as nat, nats(divs@), g);
                assert forall|x: nat| #[trigger]
                    generator_powers(g, p as nat).contains(x) <==> x < p && is_primitive_root(
                        x,
                        p as nat,
                    ) by {
                    lemma_generator_powers_complete(p as nat, g, x);
                }
            }
        }
    }
    let g: u64 = match find_first_pr(p, divs) {
        Ok(g) => g,
        Err(e) => {
            return Err(e);
        },
    };
    let mut all: Vec<u64> = Vec::new();
    let mut k: u64 = 1;
    assert(nats(all@) =~= coprime_exponents((p - 1) as nat, 1).map_values(
        |e: nat| pow_mod(g as nat, e, p as nat),
    ));
    while k < p
        invariant
            1 <= k <= p,
            nats(all@) == coprime_exponents((p - 1) as nat, k as nat).map_values(
                |e: nat| pow_mod(g as nat, e, p as nat),
            ),
        decreases p - k,
    {
        let ghost before = coprime_exponents((p - 1) as nat, k as nat);
        let ghost old_all = all@;
        if gcd(k, p - 1) == 1 {
            let x: u64 = mod_pow(g, k, p);
            all.push(x);
            assert(nats(all@) =~= nats(old_all).push(x as nat));
            assert(before.push(k as nat).map_values(|e: nat| pow_mod(g as nat, e, p as nat))
                =~= before.map_values(|e: nat| pow_mod(g as nat, e, p as nat)).push(
                pow_mod(g as nat, k as nat, p as nat),
            ));
        }
        k += 1;
    }
    assert(nats(all@).len() == all@.len());
    Ok(all)
}

/// Whether `n`, a primitive root of the prime `p`, is a primitive root
/// modulo `p * p` as well, given the divisors `divs` of `p * (p - 1)` that
/// lie strictly between 1 and `p * (p - 1)`: it is, unless one of them
/// takes `n` to 1 modulo `p * p`.
pub fn check_pr_mod_psquared(p: u64, n: u64, divs: &Vec<u64>) -> (r: bool)
    requires
        0 < p,
        p * p <= u64::MAX,
    ensures
        r == avoids_one(n as nat, nats(divs@), (p * p) as nat),
        is_prime(p as nat) && p > 2 && is_primitive_root(n as nat, p as nat)
            && lists_strict_divisors(nats(divs@), (p * (p - 1)) as nat) ==> r
            == is_primitive_root_of_square(n as nat, p as nat),
{
    assert(0 < p * p) by (nonlinear_arith)
        requires
            0 < p,
    ;
    proof {
        if is_prime(p as nat) && p > 2 && is_primitive_root(n as nat, p as nat)
            && lists_strict_divisors(nats(divs@), (p * (p - 1)) as nat) {
            lemma_lift_test(p as nat, n as nat, nats(divs@));
        }
    }
    powers_avoid_one(n, divs, p * p)
}

} // verus!
