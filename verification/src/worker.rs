//! The work on one prime and on one range of prime indices: the primitive
//! roots of each prime that are not primitive roots modulo its square.
use crate::divisor_lists::{
    divisors_of_p_times_p_minus_1, extended_divisors, get_divisors, lemma_divisors_below,
    listed_divisors,
};
use crate::orders::{is_primitive_root, is_primitive_root_of_square};
use crate::primes::{
    is_nth_prime, is_prime, lemma_first_primes, lemma_primes_ascend, nth_prime, nth_prime_of,
    LAST_PRIME_INDEX,
};
use crate::root_laws::{
    lemma_listed_divisors, lemma_no_generator_for_3, lemma_search_is_owed, lemma_z_roots,
};
use crate::roots::{
    avoids_one, check_pr_mod_psquared, find_all_prs, find_first_pr, first_generator,
    generator_powers, nats, totient, SearchError,
};
use vstd::prelude::*;

verus! {

/// Why the work on a prime, or on the index of a prime, gave no record.
#[derive(Clone, Copy, Debug, PartialEq, Eq, Structural)]
pub enum RangeError {
    /// No prime has the index: the index is 0, or the prime is beyond 64
    /// bits.
    NoSuchPrime,
    /// The number is even, so it is no odd prime.
    InvalidInput,
    /// The search for a primitive root found none.
    NoGenerator,
    /// The square of the prime does not fit in 64 bits.
    TooLarge,
}

/// One row of output: a prime and its z-primitive roots.
#[derive(Debug, PartialEq, Eq)]
pub struct Record {
    /// The prime.
    pub p: u64,
    /// The primitive roots of `p` that are not primitive roots modulo
    /// `p * p`, in the order in which `find_all_prs` yields them.
    pub zprs: Vec<u64>,
}

impl View for Record {
    type V = (nat, Seq<nat>);

    open spec fn view(&self) -> (nat, Seq<nat>) {
        (self.p as nat, nats(self.zprs@))
    }
}

/// The test that keeps, among the primitive roots of `p`, those that some
/// exponent of `divs` takes to 1 modulo `p * p`.
pub open spec fn fails_to_lift(p: nat, divs: Seq<nat>) -> spec_fn(nat) -> bool {
    |n: nat| !avoids_one(n, divs, p * p)
}

/// `z` holds, each once, the z-primitive roots of `p`: the numbers below
/// `p` that are primitive roots of `p` and not of `p * p`.
pub open spec fn is_z_root_list(p: nat, z: Seq<nat>) -> bool {
    &&& z.no_duplicates()
    &&& forall|x: nat| #[trigger]
        z.contains(x) <==> x < p && is_primitive_root(x, p) && !is_primitive_root_of_square(x, p)
}

/// `rec` is the record of the index `i`: the prime of that index, which is
/// at least 5 and below 2^32, with its z-primitive roots.
pub open spec fn is_record_of(i: nat, rec: (nat, Seq<nat>)) -> bool {
    &&& 3 <= i <= LAST_PRIME_INDEX
    &&& is_nth_prime(i, rec.0)
    &&& 5 <= rec.0 <= 0xffff_ffff
    &&& is_z_root_list(rec.0, rec.1)
}

/// The z-primitive roots of `p` as they are computed, or why there are
/// none to give.
pub open spec fn z_roots_of(p: nat) -> Result<Seq<nat>, RangeError> {
    let divs = listed_divisors((p - 1) as nat);
    if p % 2 == 0 {
        Err(RangeError::InvalidInput)
    } else {
        match first_generator(p, divs) {
            None => Err(RangeError::NoGenerator),
            Some(g) => if p * p > u64::MAX {
                Err(RangeError::TooLarge)
            } else {
                Ok(generator_powers(g, p).filter(fails_to_lift(p, extended_divisors(p, divs))))
            },
        }
    }
}

/// The record of the prime of index `i`, or why there is none.
pub open spec fn index_outcome(i: nat) -> Result<(nat, Seq<nat>), RangeError> {
    if i == 0 || i > LAST_PRIME_INDEX {
        Err(RangeError::NoSuchPrime)
    } else {
        match z_roots_of(nth_prime_of(i)) {
            Ok(z) => Ok((nth_prime_of(i), z)),
            Err(e) => Err(e),
        }
    }
}

/// The members of `listed_divisors(n)` are at most `n`.
proof fn lemma_listed_divisors_bound(n: nat)
    ensures
        forall|i: int|
            0 <= i < listed_divisors(n).len() ==> #[trigger] listed_divisors(n)[i] <= n,
{
    lemma_divisors_below(n, n);
}

/// The z-primitive roots of the prime `p`: its primitive roots, as
/// `find_all_prs` yields them from the divisors of `p - 1`, less those that
/// are primitive roots modulo `p * p` as well.
///
/// An even `p` is refused as `InvalidInput`; a search that finds no
/// primitive root ends in `NoGenerator`; a `p` whose square is beyond 64 bits
/// ends in `TooLarge`.
///
/// For a prime from 5 on whose square fits in 64 bits the list is there,
/// and it holds, each once, the numbers below `p` that are primitive roots
/// of `p` and not of `p * p`.
pub fn z_primitive_roots(p: u64) -> (r: Result<Vec<u64>, RangeError>)
    requires
        p >= 2,
    ensures
        match r {
            Ok(z) => z_roots_of(p as nat) == Ok::<Seq<nat>, RangeError>(nats(z@)),
            Err(e) => z_roots_of(p as nat) == Err::<Seq<nat>, RangeError>(e),
        },
        r matches Ok(z) ==> z@.len() <= totient((p - 1) as nat),
        is_prime(p as nat) && p >= 5 && p * p <= u64::MAX ==> (r matches Ok(z) && is_z_root_list(
            p as nat,
            nats(z@),
        )),
{
    proof {
        if is_prime(p as nat) && p >= 5 && p * p <= u64::MAX {
            lemma_z_roots(p as nat);
        }
    }
    let divs: Vec<u64> = get_divisors(p - 1);
    if p > 0xffff_ffff {
        assert(p * p > u64::MAX) by (nonlinear_arith)
            requires
                p >= 0x1_0000_0000,
        ;
        // the roots themselves are not needed to tell how this ends
        return match find_first_pr(p, &divs) {
            Ok(_) => Err(RangeError::TooLarge),
            Err(SearchError::InvalidInput) => Err(RangeError::InvalidInput),
            Err(SearchError::NoGenerator) => Err(RangeError::NoGenerator),
        };
    }
    let prs: Vec<u64> = match find_all_prs(p, &divs) {
        Ok(v) => v,
        Err(SearchError::InvalidInput) => {
            return Err(RangeError::InvalidInput);
        },
        Err(SearchError::NoGenerator) => {
            return Err(RangeError::NoGenerator);
        },
    };
    assert(p * p <= u64::MAX) by (nonlinear_arith)
        requires
            p <= 0xffff_ffff,
    ;
    proof {
        lemma_listed_divisors_bound((p - 1) as nat);
        assert forall|i: int| 0 <= i < divs@.len() implies #[trigger] divs@[i] * p
            <= u64::MAX by {
            assert(nats(divs@)[i] == divs@[i] as nat);
            assert(divs@[i] * p <= p * p) by (nonlinear_arith)
                requires
                    divs@[i] <= p,
            ;
        }
    }
    let all_divs: Vec<u64> = divisors_of_p_times_p_minus_1(p, &divs);
    let ghost keep = fails_to_lift(p as nat, nats(all_divs@));
    let mut z: Vec<u64> = Vec::new();
    let mut i: usize = 0;
    assert(nats(prs@).take(0) =~= Seq::<nat>::empty());
    assert(Seq::<nat>::empty().filter(keep) =~= Seq::<nat>::empty()) by {
        Seq::<nat>::empty().lemma_filter_len(keep);
    }
    while i < prs.len()
        invariant
            i <= prs.len(),
            0 < p,
            p * p <= u64::MAX,
            keep == fails_to_lift(p as nat, nats(all_divs@)),
            nats(z@) == nats(prs@).take(i as int).filter(keep),
        decreases prs.len() - i,
    {
        let n: u64 = prs[i];
        let ghost before = z@;
        proof {
            assert(nats(prs@).take(i + 1) =~= nats(prs@).take(i as int).push(n as nat));
            nats(prs@).take(i as int).lemma_filter_push(n as nat, keep);
        }
        if !check_pr_mod_psquared(p, n, &all_divs) {
            z.push(n);
            assert(nats(z@) =~= nats(before).push(n as nat));
        }
        i += 1;
    }
    assert(nats(prs@).take(prs@.len() as int) =~= nats(prs@));
    proof {
        nats(prs@).lemma_filter_len(keep);
        assert(nats(z@).len() == z@.len());
        assert(nats(prs@).len() == prs@.len());
    }
    Ok(z)
}

/// The record of the prime of index `i`, counting the primes from 1: the
/// prime, and its z-primitive roots as `z_primitive_roots` gives them.
///
/// There is no record for an index without a prime in 64 bits
/// (`NoSuchPrime`), for index 1, whose prime is 2 (`InvalidInput`), for
/// index 2, whose prime is 3 (`NoGenerator`), and for a prime whose square
/// is beyond 64 bits (`TooLarge`). Every other index has one, and it holds,
/// each once, the numbers below the prime that are primitive roots of the
/// prime and not of its square.
pub fn process_index(i: u64) -> (r: Result<Record, RangeError>)
    ensures
        match r {
            Ok(rec) => index_outcome(i as nat) == Ok::<(nat, Seq<nat>), RangeError>(rec@),
            Err(e) => index_outcome(i as nat) == Err::<(nat, Seq<nat>), RangeError>(e),
        },
        match r {
            Ok(rec) => is_record_of(i as nat, rec@),
            Err(RangeError::NoSuchPrime) => i == 0 || i > LAST_PRIME_INDEX,
            Err(RangeError::InvalidInput) => i == 1,
            Err(RangeError::NoGenerator) => i == 2,
            Err(RangeError::TooLarge) => 3 <= i <= LAST_PRIME_INDEX && nth_prime_of(i as nat)
                > 0xffff_ffff,
        },
{
    let p: u64 = match nth_prime(i) {
        Some(p) => p,
        None => {
            return Err(RangeError::NoSuchPrime);
        },
    };
    proof {
        lemma_first_primes(i as nat, p as nat);
        if p <= 0xffff_ffff {
            assert(p * p <= u64::MAX) by (nonlinear_arith)
                requires
                    p <= 0xffff_ffff,
            ;
        } else {
            assert(p * p > u64::MAX) by (nonlinear_arith)
                requires
                    p >= 0x1_0000_0000,
            ;
        }
        if p >= 5 && p <= 0xffff_ffff {
            lemma_z_roots(p as nat);
        }
        if p >= 5 {
            assert(p % 2 != 0);
            lemma_listed_divisors((p - 1) as nat);
            let small = listed_divisors((p - 1) as nat);
            assert forall|k: int| 0 <= k < small.len() implies 0 < #[trigger] small[k] < p
                - 1 by {
                assert(small.contains(small[k]));
            }
            lemma_search_is_owed(p as nat, small);
        }
        if p == 3 {
            lemma_no_generator_for_3(listed_divisors(2));
        }
    }
    match z_primitive_roots(p) {
        Ok(zprs) => Ok(Record { p, zprs }),
        Err(e) => Err(e),
    }
}

/// What the work on a range of indices gave: the records of its first
/// indices, and the failure that ended it early, if one did.
pub struct RangeOutcome {
    /// The records of the indices from the start of the range on, in
    /// ascending order of the index, hence of the prime.
    pub records: Vec<Record>,
    /// Why the index after the last record gave none, if the range ended
    /// early.
    pub failure: Option<RangeError>,
}

impl View for RangeOutcome {
    type V = (Seq<(nat, Seq<nat>)>, Option<RangeError>);

    open spec fn view(&self) -> (Seq<(nat, Seq<nat>)>, Option<RangeError>) {
        (self.records@.map_values(|rec: Record| rec@), self.failure)
    }
}

/// `records` and `failure` are what the range from `start` to `stop` gives:
/// the records are those of `start`, `start + 1` and so on, and they end
/// either with the range, or before an index that gives the failure.
pub open spec fn is_range_outcome(
    start: nat,
    stop: nat,
    records: Seq<(nat, Seq<nat>)>,
    failure: Option<RangeError>,
) -> bool {
    &&& forall|k: int|
        0 <= k < records.len() ==> index_outcome((start + k) as nat) == Ok::<
            (nat, Seq<nat>),
            RangeError,
        >(#[trigger] records[k])
    &&& match failure {
        None => start + records.len() >= stop && (start + records.len() == stop || records.len()
            == 0),
        Some(e) => start + records.len() < stop && index_outcome(start + records.len())
            == Err::<(nat, Seq<nat>), RangeError>(e),
    }
}

/// The records of the primes of the indices `start`, .., `stop - 1`, in that
/// order, up to the first index that gives none.
///
/// Each record is that of its index, so the primes ascend with the
/// records. A range that starts at index 3 or later, and whose primes are
/// below 2^32, comes out whole.
pub fn process_range(start: u64, stop: u64) -> (out: RangeOutcome)
    ensures
        is_range_outcome(start as nat, stop as nat, out@.0, out@.1),
        forall|k: int|
            0 <= k < out@.0.len() ==> is_record_of((start + k) as nat, #[trigger] out@.0[k]),
        forall|j: int, k: int| 0 <= j < k < out@.0.len() ==> out@.0[j].0 < out@.0[k].0,
        match out@.1 {
            None => true,
            Some(RangeError::NoSuchPrime) => start + out@.0.len() == 0 || start + out@.0.len()
                > LAST_PRIME_INDEX,
            Some(RangeError::InvalidInput) => start + out@.0.len() == 1,
            Some(RangeError::NoGenerator) => start + out@.0.len() == 2,
            Some(RangeError::TooLarge) => nth_prime_of((start + out@.0.len()) as nat)
                > 0xffff_ffff,
        },
{
    let mut records: Vec<Record> = Vec::new();
    let mut i: u64 = start;
    while i < stop
        invariant
            start <= i,
            i <= stop || records@.len() == 0,
            i == start + records@.len(),
            forall|k: int|
                0 <= k < records@.len() ==> index_outcome((start + k) as nat) == Ok::<
                    (nat, Seq<nat>),
                    RangeError,
                >(#[trigger] records@[k]@),
            forall|k: int|
                0 <= k < records@.len() ==> is_record_of(
                    (start + k) as nat,
                    #[trigger] records@[k]@,
                ),
        decreases stop - i,
    {
        match process_index(i) {
            Ok(rec) => {
                records.push(rec);
            },
            Err(e) => {
                proof {
                    lemma_records_ascend(start as nat, records@.map_values(|rec: Record| rec@));
                }
                return RangeOutcome { records, failure: Some(e) };
            },
        }
        i += 1;
    }
    proof {
        lemma_records_ascend(start as nat, records@.map_values(|rec: Record| rec@));
    }
    RangeOutcome { records, failure: None }
}

/// Records of indices that follow each other hold primes that ascend.
pub proof fn lemma_records_ascend(start: nat, records: Seq<(nat, Seq<nat>)>)
    requires
        forall|k: int|
            0 <= k < records.len() ==> is_record_of((start + k) as nat, #[trigger] records[k]),
    ensures
        forall|j: int, k: int| 0 <= j < k < records.len() ==> records[j].0 < records[k].0,
{
    assert forall|j: int, k: int| 0 <= j < k < records.len() implies records[j].0
        < records[k].0 by {
        assert(is_record_of((start + j) as nat, records[j]));
        assert(is_record_of((start + k) as nat, records[k]));
        lemma_primes_ascend(
            (start + j) as nat,
            records[j].0,
            (start + k) as nat,
            records[k].0,
        );
    }
}

/// The work on a prime has one outcome: two lists that both are the
/// z-primitive roots of `p` are the same list.
pub proof fn lemma_roots_repeat(p: nat, first: Seq<u64>, second: Seq<u64>)
    requires
        z_roots_of(p) == Ok::<Seq<nat>, RangeError>(nats(first)),
        z_roots_of(p) == Ok::<Seq<nat>, RangeError>(nats(second)),
    ensures
        first == second,
{
    assert(nats(first) == nats(second));
    assert(first.len() == second.len()) by {
        assert(nats(first).len() == first.len());
        assert(nats(second).len() == second.len());
    }
    assert forall|i: int| 0 <= i < first.len() implies first[i] == second[i] by {
        assert(nats(first)[i] == first[i] as nat);
        assert(nats(second)[i] == second[i] as nat);
    }
    assert(first =~= second);
}

/// The work on a range has one outcome, whoever does it and whenever: two
/// outcomes of the same range hold the same records and the same failure.
pub proof fn lemma_range_outcome_unique(
    start: nat,
    stop: nat,
    first: (Seq<(nat, Seq<nat>)>, Option<RangeError>),
    second: (Seq<(nat, Seq<nat>)>, Option<RangeError>),
)
    requires
        is_range_outcome(start, stop, first.0, first.1),
        is_range_outcome(start, stop, second.0, second.1),
    ensures
        first == second,
{
    let a = first.0;
    let b = second.0;
    if a.len() < b.len() {
        assert(index_outcome((start + a.len()) as nat) == Ok::<(nat, Seq<nat>), RangeError>(
            b[a.len() as int],
        ));
    }
    if b.len() < a.len() {
        assert(index_outcome((start + b.len()) as nat) == Ok::<(nat, Seq<nat>), RangeError>(
            a[b.len() as int],
        ));
    }
    assert(a.len() == b.len());
    assert forall|k: int| 0 <= k < a.len() implies a[k] == b[k] by {
        assert(index_outcome((start + k) as nat) == Ok::<(nat, Seq<nat>), RangeError>(a[k]));
        assert(index_outcome((start + k) as nat) == Ok::<(nat, Seq<nat>), RangeError>(b[k]));
    }
    assert(a =~= b);
}

/// The record of an index does not depend on the range that holds it: where
/// two ranges overlap, their outcomes hold the same record for the same
/// index.
pub proof fn lemma_record_independent_of_range(
    start_a: nat,
    stop_a: nat,
    a: (Seq<(nat, Seq<nat>)>, Option<RangeError>),
    start_b: nat,
    stop_b: nat,
    b: (Seq<(nat, Seq<nat>)>, Option<RangeError>),
    i: nat,
)
    requires
        is_range_outcome(start_a, stop_a, a.0, a.1),
        is_range_outcome(start_b, stop_b, b.0, b.1),
        start_a <= i < start_a + a.0.len(),
        start_b <= i < start_b + b.0.len(),
    ensures
        a.0[i - start_a] == b.0[i - start_b],
{
    assert(index_outcome((start_a + (i - start_a)) as nat) == Ok::<(nat, Seq<nat>), RangeError>(
        a.0[i - start_a],
    ));
    assert(index_outcome((start_b + (i - start_b)) as nat) == Ok::<(nat, Seq<nat>), RangeError>(
        b.0[i - start_b],
    ));
}

} // verus!
