//! Primes by their index in the sequence of primes.
use vstd::prelude::*;

verus! {

/// `p` is a prime number.
pub open spec fn is_prime(p: nat) -> bool {
    p >= 2 && forall|d: nat| 1 < d < p ==> #[trigger] (p % d) != 0
}

/// How many primes there are among `1, .., n`.
pub open spec fn prime_count(n: nat) -> nat
    decreases n,
{
    if n == 0 {
        0
    } else {
        prime_count((n - 1) as nat) + if is_prime(n) {
            1nat
        } else {
            0nat
        }
    }
}

/// `p` is the prime of index `i`, the first prime having index 1.
pub open spec fn is_nth_prime(i: nat, p: nat) -> bool {
    is_prime(p) && prime_count(p) == i
}

/// The prime of index `i`, where there is one.
pub open spec fn nth_prime_of(i: nat) -> nat {
    choose|p: nat| is_nth_prime(i, p)
}

/// The index of the last prime that a `u64` holds.
pub const LAST_PRIME_INDEX: u64 = 425_656_284_035_217_743;

/// Counting primes never goes down.
pub proof fn lemma_prime_count_monotone(a: nat, b: nat)
    requires
        a <= b,
    ensures
        prime_count(a) <= prime_count(b),
    decreases b,
{
    if a < b {
        lemma_prime_count_monotone(a, (b - 1) as nat);
    }
}

/// No two primes share an index.
pub proof fn lemma_nth_prime_unique(i: nat, p: nat, q: nat)
    requires
        is_nth_prime(i, p),
        is_nth_prime(i, q),
    ensures
        p == q,
{
    if p < q {
        lemma_prime_count_monotone(p, (q - 1) as nat);
    } else if q < p {
        lemma_prime_count_monotone(q, (p - 1) as nat);
    }
}

/// The primes ascend with their indices.
pub proof fn lemma_primes_ascend(i: nat, p: nat, j: nat, q: nat)
    requires
        is_nth_prime(i, p),
        is_nth_prime(j, q),
        i < j,
    ensures
        p < q,
{
    if q <= p {
        lemma_prime_count_monotone(q, p);
    }
}

/// The first primes are 2, 3 and 5, and the primes from index 3 on are at
/// least 5.
pub proof fn lemma_first_primes(i: nat, p: nat)
    requires
        is_nth_prime(i, p),
    ensures
        i >= 1,
        i == 1 <==> p == 2,
        i == 2 <==> p == 3,
        i >= 3 <==> p >= 5,
{
    reveal_with_fuel(prime_count, 6);
    assert(!is_prime(4)) by {
        assert(4nat % 2 == 0);
    }
    assert(is_prime(2) && is_prime(3) && is_prime(5));
    assert(prime_count(2) == 1 && prime_count(3) == 2 && prime_count(4) == 2 && prime_count(5)
        == 3);
    if p >= 5 {
        lemma_prime_count_monotone(5, p);
    }
}

/// The prime of index `i` by `number_theory::NumberTheory::nth_prime` on
/// `u64`.
///
/// That function walks up from 1, counts the numbers that its primality
/// test accepts, and yields the one with which the count reaches `i`; it
/// gives up beyond the index of the last prime below 2^64. Its primality
/// test is taken to be exact on 64-bit integers, as its authors state.
/// Index 0 is left out: there the function yields 1, which is no prime.
#[verifier::external_body]
fn counted_prime(i: u64) -> (r: Option<u64>)
    requires
        i >= 1,
    ensures
        match r {
            Some(p) => i <= LAST_PRIME_INDEX && is_nth_prime(i as nat, p as nat),
            None => i > LAST_PRIME_INDEX,
        },
{
    match ::number_theory::NumberTheory::nth_prime(&i) {
        ::number_theory::NTResult::Eval(p) => Some(p),
        _ => None,
    }
}

/// The prime of index `i`, counting from 1: `nth_prime(1)` is 2. There is
/// none of index 0, and none in a `u64` beyond `LAST_PRIME_INDEX`.
pub fn nth_prime(i: u64) -> (r: Option<u64>)
    ensures
        match r {
            Some(p) => 1 <= i <= LAST_PRIME_INDEX && is_nth_prime(i as nat, p as nat) && p
                == nth_prime_of(i as nat),
            None => i == 0 || i > LAST_PRIME_INDEX,
        },
{
    if i == 0 {
        None
    } else {
        let r = counted_prime(i);
        proof {
            if let Some(p) = r {
                lemma_nth_prime_unique(i as nat, p as nat, nth_prime_of(i as nat));
            }
        }
        r
    }
}

} // verus!
